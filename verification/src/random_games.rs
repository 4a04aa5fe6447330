//! Random games that respect placement masks, used to generate reachable
//! targets.

use vstd::prelude::*;
use rand::rngs::ThreadRng;
use rand::seq::{IndexedRandom, SliceRandom};
use crate::board::{Board, CellCoord, PlacementMask, PlayerColor, in_bounds};
use crate::game::{
    UncheckedGameProgression, acting_player, has_allowed_move, initial_board, is_game_record, lemma_allowed_moves_nonempty,
    lemma_play_state_push, mask_for, moves_available_with_mask, play_from, play_state, record_cells, record_text,
    standard_initial_board,
};
use crate::reachability_problem::ReachabilityProblem;

verus! {

#[verifier::external_type_specification]
#[verifier::external_body]
pub struct ExThreadRng(ThreadRng);

/// `rand::rng`: the thread-local random generator.
#[verifier::external_body]
fn thread_rng() -> ThreadRng {
    rand::rng()
}

/// `IndexedRandom::choose` on the cells: one of them, picked at random.
#[verifier::external_body]
fn choose_cell(cells: &Vec<CellCoord>, rng: &mut ThreadRng) -> (cell: CellCoord)
    requires
        cells@.len() > 0,
    ensures
        cells@.contains(cell),
{
    *cells.choose(rng).expect("moves_actual is empty")
}

/// Whether `cells` replayed from the standard initial board with the two
/// masks reaches `board`, every disk placed where its player's mask allows.
pub open spec fn reaches(board: Board, cells: Seq<CellCoord>, black_mask: PlacementMask, white_mask: PlacementMask) -> bool {
    ReachabilityProblem {
        target_board: board,
        black_placement_mask: black_mask,
        white_placement_mask: white_mask,
        initial_board: standard_initial_board(),
    }.solved_by(cells)
}

/// Whether neither player has a legal move that its mask allows on `board`.
pub open spec fn stuck(board: Board, black_mask: PlacementMask, white_mask: PlacementMask) -> bool {
    &&& !has_allowed_move(board, PlayerColor::Black, black_mask)
    &&& !has_allowed_move(board, PlayerColor::White, white_mask)
}

/// Whether some replay of fewer than `n` moves from the standard initial
/// board, Black first, ends on a board where neither player has a legal move
/// that its mask allows.
pub open spec fn stuck_within(n: int, black_mask: PlacementMask, white_mask: PlacementMask) -> bool {
    exists|cells: Seq<CellCoord>|
        cells.len() < n && (#[trigger] play_state(standard_initial_board(), PlayerColor::Black, cells, black_mask, white_mask) matches Some(
            state,
        ) && stuck(state.0, black_mask, white_mask))
}

/// One more move of a random game: the player to move if it has a legal
/// move that its mask allows, else its opponent if that one has; `None`
/// where neither has. The chosen cell is picked at random among the legal
/// moves that the mover's mask allows.
fn random_step(
    board: &Board,
    current: PlayerColor,
    black_mask: &PlacementMask,
    white_mask: &PlacementMask,
    rng: &mut ThreadRng,
) -> (step: Option<(CellCoord, PlayerColor, Board)>)
    ensures
        step matches Some((cell, mover, next)) ==> {
            &&& mover == acting_player(*board, current, *black_mask, *white_mask)
            &&& mask_for(mover, *black_mask, *white_mask).allows_cell(cell)
            &&& board.after_move(cell.x(), cell.y(), mover) == Some(next)
        },
        step is None <==> stuck(*board, *black_mask, *white_mask),
{
    let moves_current = moves_available_with_mask(board, &current, black_mask, white_mask);
    proof {
        lemma_allowed_moves_nonempty(*board, current, mask_for(current, *black_mask, *white_mask));
    }
    let actual_player = if moves_current.len() == 0 {
        current.opponent()
    } else {
        current
    };
    let moves_actual = if moves_current.len() == 0 {
        moves_available_with_mask(board, &actual_player, black_mask, white_mask)
    } else {
        moves_current
    };
    proof {
        lemma_allowed_moves_nonempty(*board, actual_player, mask_for(actual_player, *black_mask, *white_mask));
    }
    if moves_actual.len() == 0 {
        return None;
    }
    let chosen = choose_cell(&moves_actual, rng);
    proof {
        let pred = |c: CellCoord| mask_for(actual_player, *black_mask, *white_mask).allows_cell(c);
        let all = board.legal_moves(actual_player);
        let i = choose|i: int| 0 <= i < moves_actual@.len() && moves_actual@[i] == chosen;
        all.lemma_filter_pred(pred, i);
        all.lemma_filter_contains_rev(pred, chosen);
        board.lemma_legal_moves_are_legal(actual_player, 36, chosen);
        board.lemma_after_move_exists(chosen.x(), chosen.y(), actual_player);
    }
    match board.place_disk(*chosen.column(), *chosen.row(), &actual_player) {
        Some(next) => Some((chosen, actual_player, next)),
        None => {
            proof {
                assert(false);
            }
            None
        },
    }
}

/// Plays `plies` random moves from the standard initial board, Black first,
/// each player placing only where its mask allows and passing when it has
/// no such move. Returns the board and the moves played, or, where neither
/// player can move before the end, `None` if `give_up_when_stuck` and
/// otherwise the board reached so far.
fn random_game(
    black_mask: &PlacementMask,
    white_mask: &PlacementMask,
    plies: usize,
    give_up_when_stuck: bool,
) -> (game: Option<(Board, Vec<CellCoord>)>)
    ensures
        game matches Some((board, cells)) ==> reaches(board, cells@, *black_mask, *white_mask),
        game matches Some((board, cells)) ==> give_up_when_stuck ==> cells@.len() == plies,
        !give_up_when_stuck ==> game is Some,
        game is None ==> stuck_within(plies as int, *black_mask, *white_mask),
        game matches Some((board, cells)) ==> cells@.len() <= 32 && (cells@.len() < plies ==> stuck(board, *black_mask, *white_mask)),
{
    let mut rng = thread_rng();
    let mut board = initial_board();
    let mut current_player = PlayerColor::Black;
    let mut cells: Vec<CellCoord> = Vec::new();
    let ghost start = standard_initial_board();
    let mut n: usize = 0;
    while n < plies
        invariant
            n <= plies,
            cells@.len() == n,
            play_state(start, PlayerColor::Black, cells@, *black_mask, *white_mask) == Some((board, current_player)),
            reaches(board, cells@, *black_mask, *white_mask),
            start == standard_initial_board(),
            forall|y: int, x: int| in_bounds(x, y) ==> #[trigger] start.cell(x, y) == crate::game::initial_cell(2, 2, x, y),
            cells@.len() <= 32,
        decreases plies - n,
    {
        proof {
            crate::game::lemma_play_from_state(start, PlayerColor::Black, cells@, *black_mask, *white_mask);
            crate::game::lemma_reached_disks(start, cells@, *black_mask, *white_mask);
            board.lemma_filled_upto_bound(36);
        }
        match random_step(&board, current_player, black_mask, white_mask, &mut rng) {
            None => {
                if give_up_when_stuck {
                    proof {
                        assert(play_state(start, PlayerColor::Black, cells@, *black_mask, *white_mask) == Some((board, current_player)));
                    }
                    return None;
                }
                proof {
                    assert(stuck(board, *black_mask, *white_mask));
                }
                return Some((board, cells));
            },
            Some((cell, mover, next)) => {
                proof {
                    board.lemma_after_move_exists(cell.x(), cell.y(), mover);
                    board.lemma_move_adds_one_disk(cell.x(), cell.y(), mover, next);
                    next.lemma_filled_upto_bound(36);
                    lemma_play_state_push(start, PlayerColor::Black, cells@, cell, *black_mask, *white_mask);
                    let players = crate::game::players_from(start, PlayerColor::Black, cells@, *black_mask, *white_mask);
                    let one = crate::game::players_from(board, current_player, seq![cell], *black_mask, *white_mask);
                    assert(seq![cell].drop_first() =~= Seq::<CellCoord>::empty());
                    assert(seq![cell][0] == cell);
                    assert(crate::game::players_from(next, mover.other(), Seq::<CellCoord>::empty(), *black_mask, *white_mask) =~= Seq::<PlayerColor>::empty());
                    assert(one =~= seq![mover]);
                    assert(play_state(next, mover.other(), Seq::<CellCoord>::empty(), *black_mask, *white_mask) == Some((next, mover.other())));
                    assert(crate::game::play_from(next, mover.other(), Seq::<CellCoord>::empty(), *black_mask, *white_mask) == Some(next));
                    assert(play_state(board, current_player, seq![cell], *black_mask, *white_mask) == Some((next, mover.other())));
                    assert(crate::game::play_from(board, current_player, seq![cell], *black_mask, *white_mask) == Some(next));
                    let all = players + one;
                    let pushed = cells@.push(cell);
                    assert forall|i: int| 0 <= i < all.len() implies
                        mask_for(#[trigger] all[i], *black_mask, *white_mask).allows_cell(pushed[i]) by {
                        if i < players.len() {
                            assert(all[i] == players[i] && pushed[i] == cells@[i]);
                        }
                    }
                }
                cells.push(cell);
                board = next;
                current_player = mover.opponent();
            },
        }
        n += 1;
    }
    Some((board, cells))
}

/// One attempt at a random game of 32 moves that respect the masks, from
/// the standard initial board, Black first, a player passing when it has no
/// move that its mask allows. Returns `Ok` with the board and the 32 moves,
/// or, where neither player can move before the 32nd move, `Err` with the
/// board and the moves played until then.
pub fn randomly_play_in_conformance_to_masks_once(
    black_mask: &PlacementMask,
    white_mask: &PlacementMask,
) -> (game: Result<(Board, UncheckedGameProgression), (Board, UncheckedGameProgression)>)
    ensures
        game matches Ok((board, progression)) ==> reaches(board, progression@, *black_mask, *white_mask)
            && progression@.len() == 32,
        game matches Err((board, progression)) ==> {
            &&& reaches(board, progression@, *black_mask, *white_mask)
            &&& progression@.len() < 32
            &&& stuck(board, *black_mask, *white_mask)
        },
{
    match random_game(black_mask, white_mask, 32, false) {
        Some((board, cells)) => {
            if cells.len() == 32 {
                Ok((board, UncheckedGameProgression::new(cells)))
            } else {
                Err((board, UncheckedGameProgression::new(cells)))
            }
        },
        None => {
            // Not reached: `random_game` only gives up when asked to.
            let board = initial_board();
            proof {
                assert(false);
            }
            Err((board, UncheckedGameProgression::new(Vec::new())))
        },
    }
}

/// Plays a random game that respects the masks until neither side can
/// move, at most 36 moves. Returns the board and the moves.
pub fn play_random_game_with_masks(
    black_mask: &PlacementMask,
    white_mask: &PlacementMask,
) -> (game: (Board, UncheckedGameProgression))
    ensures
        reaches(game.0, game.1@, *black_mask, *white_mask),
        stuck(game.0, *black_mask, *white_mask),
{
    match random_game(black_mask, white_mask, 36, false) {
        Some((board, cells)) => (board, UncheckedGameProgression::new(cells)),
        None => {
            // Not reached: `random_game` only gives up when asked to.
            let board = initial_board();
            proof {
                assert(false);
            }
            (board, UncheckedGameProgression::new(Vec::new()))
        },
    }
}


/// `rand::random::<u8>`: a random byte.
#[verifier::external_body]
fn random_byte() -> u8 {
    rand::random::<u8>()
}

/// The mask that allows every cell.
pub open spec fn full_mask() -> PlacementMask {
    let row = [true, true, true, true, true, true];
    PlacementMask([row, row, row, row, row, row])
}

/// The moves of a game from `board` with `current` to move, one per draw:
/// the player to move plays if it has a legal move, else its opponent, and
/// the move is its legal move (in row-major order) at the draw modulo their
/// number. `None` where neither player can move before the draws run out.
pub open spec fn drawn_moves(board: Board, current: PlayerColor, draws: Seq<u8>) -> Option<Seq<CellCoord>>
    decreases draws.len(),
{
    if draws.len() == 0 {
        Some(seq![])
    } else {
        let mover = if board.legal_moves(current).len() == 0 {
            current.other()
        } else {
            current
        };
        let moves = board.legal_moves(mover);
        if moves.len() == 0 {
            None
        } else {
            let c = moves[(draws[0] as int) % (moves.len() as int)];
            match drawn_moves(board.after_move(c.x(), c.y(), mover)->0, mover.other(), draws.drop_first()) {
                Some(rest) => Some(seq![c] + rest),
                None => None,
            }
        }
    }
}

/// The moves `first` followed by those of `rest`, where `rest` has some.
pub open spec fn followed_by(first: Seq<CellCoord>, rest: Option<Seq<CellCoord>>) -> Option<Seq<CellCoord>> {
    match rest {
        Some(r) => Some(first + r),
        None => None,
    }
}

/// The game record of the game that `draws` choose from the standard initial
/// board, Black first (see `drawn_moves`); `None` where neither player can
/// move before the draws run out.
pub fn game_record_from_draws(draws: &Vec<u8>) -> (record: Option<String>)
    requires
        draws@.len() <= 32,
    ensures
        record is None <==> drawn_moves(standard_initial_board(), PlayerColor::Black, draws@) is None,
        record matches Some(text) ==> text@ == record_text(drawn_moves(standard_initial_board(), PlayerColor::Black, draws@)->0),
        record matches Some(text) ==> {
            &&& is_game_record(text@)
            &&& text@.len() == 2 * draws@.len()
            &&& play_from(standard_initial_board(), PlayerColor::Black, record_cells(text@), full_mask(), full_mask()) is Some
        },
        record is None ==> stuck_within(draws@.len() as int, full_mask(), full_mask()),
{
    let row = [true, true, true, true, true, true];
    let full = PlacementMask([row, row, row, row, row, row]);
    let mut board = initial_board();
    let mut current_player = PlayerColor::Black;
    let mut hands_played: Vec<CellCoord> = Vec::new();
    let ghost start = standard_initial_board();
    proof {
        assert(full == full_mask());
        assert(draws@.skip(0) =~= draws@);
        if let Some(r) = drawn_moves(board, current_player, draws@) {
            assert(hands_played@ + r =~= r);
        }
    }
    let mut i: usize = 0;
    while i < draws.len()
        invariant
            i <= draws@.len(),
            draws@.len() <= 32,
            hands_played@.len() == i,
            full == full_mask(),
            start == standard_initial_board(),
            play_state(start, PlayerColor::Black, hands_played@, full, full) == Some((board, current_player)),
            forall|j: int| 0 <= j < hands_played@.len() ==> 0 <= (#[trigger] hands_played@[j]).x() < 6 && 0 <= hands_played@[j].y() < 6,
            drawn_moves(start, PlayerColor::Black, draws@) == followed_by(
                hands_played@,
                drawn_moves(board, current_player, draws@.skip(i as int)),
            ),
        decreases draws@.len() - i,
    {
        let ghost rest = draws@.skip(i as int);
        proof {
            assert(rest[0] == draws@[i as int]);
            assert(rest.drop_first() =~= draws@.skip(i + 1));
        }
        let moves_current = board.moves_available(&current_player);
        proof {
            lemma_full_mask_allows_all(board, current_player);
        }
        let actual_player = if moves_current.len() == 0 {
            current_player.opponent()
        } else {
            current_player
        };
        let available_moves = board.moves_available(&actual_player);
        if available_moves.len() == 0 {
            // No moves available for either player; game over.
            proof {
                lemma_full_mask_allows_all(board, actual_player);
                assert(stuck(board, full, full));
                assert(play_state(start, PlayerColor::Black, hands_played@, full, full) == Some((board, current_player)));
            }
            return None;
        }
        let chosen_move = available_moves[(draws[i] as usize) % available_moves.len()];
        proof {
            board.lemma_legal_moves_are_legal(actual_player, 36, chosen_move);
            board.lemma_after_move_exists(chosen_move.x(), chosen_move.y(), actual_player);
        }
        let column = *chosen_move.column();
        let row = *chosen_move.row();
        match board.place_disk(column, row, &actual_player) {
            Some(next) => {
                proof {
                    lemma_play_state_push(start, PlayerColor::Black, hands_played@, chosen_move, full, full);
                    assert(seq![chosen_move].drop_first() =~= Seq::<CellCoord>::empty());
                    assert(seq![chosen_move][0] == chosen_move);
                    assert(play_state(next, actual_player.other(), Seq::<CellCoord>::empty(), full, full) == Some((next, actual_player.other())));
                    assert(play_state(board, current_player, seq![chosen_move], full, full) == Some((next, actual_player.other())));
                    let later = drawn_moves(next, actual_player.other(), draws@.skip(i + 1));
                    assert(drawn_moves(board, current_player, rest) == followed_by(seq![chosen_move], later));
                    if let Some(r) = later {
                        assert(hands_played@ + (seq![chosen_move] + r) =~= hands_played@.push(chosen_move) + r);
                    }
                }
                hands_played.push(chosen_move);
                board = next;
                current_player = actual_player.opponent();
            },
            None => {
                proof {
                    assert(false);
                }
                return None;
            },
        }
        i += 1;
    }
    let progression = UncheckedGameProgression::new(hands_played);
    let record = progression.to_game_record_string();
    proof {
        assert(draws@.skip(i as int) =~= Seq::<u8>::empty());
        assert(hands_played@ + Seq::<CellCoord>::empty() =~= hands_played@);
        crate::game::lemma_record_text_round_trip(progression@);
        crate::game::lemma_play_from_state(start, PlayerColor::Black, progression@, full, full);
        lemma_record_text_len(progression@);
    }
    Some(record)
}

/// Plays 32 random moves from the standard initial board, Black first, a
/// player passing when it has no legal move, and returns their game record;
/// `None` where neither player can move before the 32nd move. The moves are
/// those that 32 random draws choose (see `game_record_from_draws`).
pub fn generate_game_record() -> (record: Option<String>)
    ensures
        exists|draws: Seq<u8>|
            draws.len() == 32 && (record is None <==> #[trigger] drawn_moves(standard_initial_board(), PlayerColor::Black, draws) is None)
                && (record matches Some(text) ==> text@ == record_text(
                drawn_moves(standard_initial_board(), PlayerColor::Black, draws)->0,
            )),
        record matches Some(text) ==> {
            &&& is_game_record(text@)
            &&& text@.len() == 64
            &&& play_from(standard_initial_board(), PlayerColor::Black, record_cells(text@), full_mask(), full_mask()) is Some
        },
        record is None ==> stuck_within(32, full_mask(), full_mask()),
{
    let mut draws: Vec<u8> = Vec::new();
    let mut k: usize = 0;
    while k < 32
        invariant
            k <= 32,
            draws@.len() == k,
        decreases 32 - k,
    {
        draws.push(random_byte());
        k += 1;
    }
    game_record_from_draws(&draws)
}

/// With a mask that allows everything, a player has an allowed move exactly
/// where it has a legal move.
proof fn lemma_full_mask_allows_all(board: Board, p: PlayerColor)
    ensures
        has_allowed_move(board, p, full_mask()) <==> board.legal_moves(p).len() > 0,
{
    if board.legal_moves(p).len() > 0 {
        let c = board.legal_moves(p)[0];
        assert(full_mask().allows_cell(c)) by {
            board.lemma_legal_moves_are_legal(p, 36, c);
        }
    }
}

/// A record has two characters per cell.
proof fn lemma_record_text_len(cells: Seq<CellCoord>)
    ensures
        record_text(cells).len() == 2 * cells.len(),
    decreases cells.len(),
{
    if cells.len() > 0 {
        lemma_record_text_len(cells.drop_last());
    }
}


/// `SliceRandom::shuffle`: the cells in a random order.
#[verifier::external_body]
fn shuffle_cells(cells: &mut Vec<CellCoord>, rng: &mut ThreadRng)
    ensures
        final(cells)@.to_multiset() == old(cells)@.to_multiset(),
{
    cells.shuffle(rng)
}

/// The two cells of the initial block that start white: C3 and D4.
pub open spec fn reserved_white(x: int, y: int) -> bool {
    (x == 2 && y == 2) || (x == 3 && y == 3)
}

/// The two cells of the initial block that start black: D3 and C4.
pub open spec fn reserved_black(x: int, y: int) -> bool {
    (x == 3 && y == 2) || (x == 2 && y == 3)
}

/// Whether `c` is a board cell outside the initial block.
pub open spec fn is_free_cell(c: CellCoord) -> bool {
    &&& in_bounds(c.x(), c.y())
    &&& !reserved_white(c.x(), c.y())
    &&& !reserved_black(c.x(), c.y())
}

/// Number of cells of the initial block before cell `p` in row-major
/// order.
pub open spec fn reserved_before(p: int) -> int {
    (if p > 14 { 1int } else { 0int }) + (if p > 15 { 1int } else { 0int }) + (if p > 20 { 1int } else { 0int }) + (if p > 21 {
        1int
    } else {
        0int
    })
}

/// The cells of the board that `mask` allows.
pub open spec fn allowed_cells(mask: PlacementMask) -> Set<CellCoord> {
    Set::new(|c: CellCoord| in_bounds(c.x(), c.y()) && mask.allows_cell(c))
}

/// Create masks where every cell is assigned to exactly one player and
/// totals are balanced: each player's initial disks go to its own mask,
/// and the 32 other cells, in random order, go half to Black and half to
/// White.
pub fn generate_balanced_disjoint_masks() -> (masks: (PlacementMask, PlacementMask))
    ensures
        exists|order: Seq<CellCoord>| is_free_order(order) && #[trigger] masks_of_order(masks, order),
        forall|y: int, x: int| in_bounds(x, y) ==> #[trigger] masks.0.allows(x, y) != masks.1.allows(x, y),
        forall|y: int, x: int| in_bounds(x, y) && reserved_white(x, y) ==> #[trigger] masks.1.allows(x, y),
        forall|y: int, x: int| in_bounds(x, y) && reserved_black(x, y) ==> #[trigger] masks.0.allows(x, y),
        allowed_cells(masks.0).finite(),
        allowed_cells(masks.0).len() == 18,
        allowed_cells(masks.1).finite(),
        allowed_cells(masks.1).len() == 18,
{
    broadcast use vstd::seq_lib::group_to_multiset_ensures;

    // The cells outside the initial block, in row-major order.
    let mut coords: Vec<CellCoord> = Vec::new();
    let mut y: u8 = 0;
    while y < 6
        invariant
            y <= 6,
            coords@.no_duplicates(),
            coords@.len() == y * 6 - reserved_before(y * 6),
            forall|i: int| 0 <= i < coords@.len() ==> is_free_cell(#[trigger] coords@[i]) && coords@[i].y() < y,
            forall|j: int, i: int| 0 <= j < y && 0 <= i < 6 && !reserved_white(i, j) && !reserved_black(i, j)
                ==> coords@.contains(#[trigger] CellCoord::at(i, j)),
        decreases 6 - y,
    {
        let mut x: u8 = 0;
        while x < 6
            invariant
                y < 6,
                x <= 6,
                coords@.no_duplicates(),
                coords@.len() == y * 6 + x - reserved_before(y * 6 + x),
                forall|i: int| 0 <= i < coords@.len() ==> is_free_cell(#[trigger] coords@[i])
                    && (coords@[i].y() < y || (coords@[i].y() == y && coords@[i].x() < x)),
                forall|j: int, i: int| (0 <= j < y && 0 <= i < 6 || j == y && 0 <= i < x) && !reserved_white(i, j) && !reserved_black(i, j)
                    ==> coords@.contains(#[trigger] CellCoord::at(i, j)),
            decreases 6 - x,
        {
            let white_start = (x == 2 && y == 2) || (x == 3 && y == 3);
            let black_start = (x == 3 && y == 2) || (x == 2 && y == 3);
            if !white_start && !black_start {
                let c = CellCoord::new(x, y);
                let ghost before = coords@;
                coords.push(c);
                proof {
                    assert forall|i: int, j: int| 0 <= i < j < coords@.len() implies coords@[i] != coords@[j] by {
                        if j == coords@.len() - 1 {
                            assert(coords@[i] == before[i]);
                        }
                    }
                    assert forall|j: int, i: int| (0 <= j < y && 0 <= i < 6 || j == y && 0 <= i < x + 1) && !reserved_white(i, j) && !reserved_black(i, j)
                        implies coords@.contains(#[trigger] CellCoord::at(i, j)) by {
                        if j == y && i == x {
                            assert(coords@[coords@.len() - 1] == c);
                        } else {
                            assert(before.contains(CellCoord::at(i, j)));
                            let k = choose|k: int| 0 <= k < before.len() && before[k] == CellCoord::at(i, j);
                            assert(coords@[k] == before[k]);
                        }
                    }
                }
            }
            x += 1;
        }
        y += 1;
    }

    assert(coords@.len() == 32);
    let ghost original = coords@;
    let mut rng = thread_rng();
    shuffle_cells(&mut coords, &mut rng);
    proof {
        original.lemma_multiset_has_no_duplicates();
        coords@.lemma_multiset_has_no_duplicates_conv();
        assert(coords@.len() == 32) by {
            assert(coords@.to_multiset().len() == coords@.len());
            assert(original.to_multiset().len() == original.len());
        }
        assert forall|i: int| 0 <= i < coords@.len() implies is_free_cell(#[trigger] coords@[i]) by {
            assert(coords@.contains(coords@[i]));
            assert(coords@.to_multiset().count(coords@[i]) > 0);
            assert(original.to_multiset().count(coords@[i]) > 0);
            assert(original.contains(coords@[i]));
        }
    }

    proof {
        assert forall|c: CellCoord| is_free_cell(c) implies coords@.contains(c) by {
            CellCoord::lemma_coordinates(c);
            assert(original.contains(CellCoord::at(c.x(), c.y())));
            assert(original.to_multiset().count(c) > 0);
            assert(coords@.to_multiset().count(c) > 0);
        }
        assert(is_free_order(coords@));
    }
    let masks = masks_from_order(&coords);
    proof {
        assert(masks_of_order(masks, coords@));
    }
    masks
}

/// Whether `order` lists each cell outside the initial block once.
pub open spec fn is_free_order(order: Seq<CellCoord>) -> bool {
    &&& order.len() == 32
    &&& order.no_duplicates()
    &&& forall|i: int| 0 <= i < order.len() ==> is_free_cell(#[trigger] order[i])
    &&& forall|c: CellCoord| is_free_cell(c) ==> order.contains(c)
}

/// Whether `masks` give the first 16 cells of `order` to Black and the
/// other 16 to White, and each player's two initial cells to that player.
pub open spec fn masks_of_order(masks: (PlacementMask, PlacementMask), order: Seq<CellCoord>) -> bool {
    &&& forall|m: int|
        0 <= m < order.len() ==> masks.0.allows_cell(#[trigger] order[m]) == (m < 16) && masks.1.allows_cell(order[m]) == (m >= 16)
    &&& forall|y: int, x: int| in_bounds(x, y) && reserved_black(x, y) ==> #[trigger] masks.0.allows(x, y) && !masks.1.allows(x, y)
    &&& forall|y: int, x: int| in_bounds(x, y) && reserved_white(x, y) ==> #[trigger] masks.1.allows(x, y) && !masks.0.allows(x, y)
}

/// The masks that an order of the free cells gives (see
/// `masks_of_order`): every cell goes to exactly one player, and each
/// player gets 18 cells.
pub fn masks_from_order(coords: &Vec<CellCoord>) -> (masks: (PlacementMask, PlacementMask))
    requires
        is_free_order(coords@),
    ensures
        masks_of_order(masks, coords@),
        forall|y: int, x: int| in_bounds(x, y) ==> #[trigger] masks.0.allows(x, y) != masks.1.allows(x, y),
        forall|y: int, x: int| in_bounds(x, y) && reserved_white(x, y) ==> #[trigger] masks.1.allows(x, y),
        forall|y: int, x: int| in_bounds(x, y) && reserved_black(x, y) ==> #[trigger] masks.0.allows(x, y),
        allowed_cells(masks.0).finite(),
        allowed_cells(masks.0).len() == 18,
        allowed_cells(masks.1).finite(),
        allowed_cells(masks.1).len() == 18,
{
    let mut black = [[false; 6]; 6];
    let mut white = [[false; 6]; 6];

    // Place the reserved initial stones into their respective masks.
    white[2][2] = true;
    white[3][3] = true;
    black[2][3] = true;
    black[3][2] = true;

    // Fill the remaining cells evenly: the first half to Black, the rest to White.
    let split = coords.len() / 2;
    let mut k: usize = 0;
    while k < coords.len()
        invariant
            k <= coords@.len(),
            coords@.no_duplicates(),
            forall|i: int| 0 <= i < coords@.len() ==> is_free_cell(#[trigger] coords@[i]),
            forall|j: int, i: int| in_bounds(i, j) && reserved_white(i, j) ==> #[trigger] white[j][i] && !black[j][i],
            forall|j: int, i: int| in_bounds(i, j) && reserved_black(i, j) ==> #[trigger] black[j][i] && !white[j][i],
            forall|j: int, i: int| in_bounds(i, j) && !reserved_white(i, j) && !reserved_black(i, j)
                && coords@.take(k as int).contains(CellCoord::at(i, j)) ==> #[trigger] black[j][i] != white[j][i],
            forall|j: int, i: int| in_bounds(i, j) && !reserved_white(i, j) && !reserved_black(i, j)
                && !coords@.take(k as int).contains(CellCoord::at(i, j)) ==> !#[trigger] black[j][i] && !white[j][i],
            split == 16,
            coords@.len() == 32,
            forall|m: int|
                0 <= m < k ==> black[(#[trigger] coords@[m]).y()][coords@[m].x()] == (m < split) && white[coords@[m].y()][coords@[m].x()]
                    == (m >= split),
        decreases coords@.len() - k,
    {
        let c = coords[k];
        let cx = *c.column() as usize;
        let cy = *c.row() as usize;
        let ghost (old_black, old_white) = (black, white);
        proof {
            CellCoord::lemma_coordinates(c);
            assert(is_free_cell(coords@[k as int]));
            assert(!coords@.take(k as int).contains(c)) by {
                if coords@.take(k as int).contains(c) {
                    let m = choose|m: int| 0 <= m < k && #[trigger] coords@.take(k as int)[m] == c;
                    assert(coords@[m] == coords@[k as int]);
                }
            }
            assert(c == CellCoord::at(cx as int, cy as int));
            assert(in_bounds(cx as int, cy as int) && !reserved_white(cx as int, cy as int) && !reserved_black(cx as int, cy as int));
            assert(!coords@.take(k as int).contains(CellCoord::at(cx as int, cy as int)));
            let (ci, cj) = (cx as int, cy as int);
            assert(in_bounds(ci, cj) && !reserved_white(ci, cj) && !reserved_black(ci, cj)
                && !coords@.take(k as int).contains(CellCoord::at(ci, cj)));
            assert(!black[cj][ci]);
            assert(!white[cj][ci]);
        }
        if k < split {
            let mut row = black[cy];
            row[cx] = true;
            black[cy] = row;
        } else {
            let mut row = white[cy];
            row[cx] = true;
            white[cy] = row;
        }
        proof {
            assert forall|j: int, i: int| in_bounds(i, j) && reserved_white(i, j) implies #[trigger] white[j][i] && !black[j][i] by {
                assert(black[j][i] == old_black[j][i] && white[j][i] == old_white[j][i]);
            }
            assert forall|j: int, i: int| in_bounds(i, j) && reserved_black(i, j) implies #[trigger] black[j][i] && !white[j][i] by {
                assert(black[j][i] == old_black[j][i] && white[j][i] == old_white[j][i]);
            }
            assert forall|j: int, i: int| in_bounds(i, j) && !reserved_white(i, j) && !reserved_black(i, j)
                implies (coords@.take(k + 1).contains(CellCoord::at(i, j)) ==> #[trigger] black[j][i] != white[j][i])
                    && (!coords@.take(k + 1).contains(CellCoord::at(i, j)) ==> !black[j][i] && !white[j][i]) by {
                CellCoord::lemma_at(i, j);
                if i == cx && j == cy {
                    assert(coords@.take(k + 1)[k as int] == CellCoord::at(i, j));
                } else {
                    assert(black[j][i] == old_black[j][i] && white[j][i] == old_white[j][i]);
                    if coords@.take(k + 1).contains(CellCoord::at(i, j)) {
                        let m = choose|m: int| 0 <= m < k + 1 && #[trigger] coords@.take(k + 1)[m] == CellCoord::at(i, j);
                        assert(m != k);
                        assert(coords@.take(k as int)[m] == CellCoord::at(i, j));
                    }
                    if coords@.take(k as int).contains(CellCoord::at(i, j)) {
                        let m = choose|m: int| 0 <= m < k && #[trigger] coords@.take(k as int)[m] == CellCoord::at(i, j);
                        assert(coords@.take(k + 1)[m] == CellCoord::at(i, j));
                    }
                }
            }
            assert forall|m: int| 0 <= m < k + 1 implies black[(#[trigger] coords@[m]).y()][coords@[m].x()] == (m < split)
                && white[coords@[m].y()][coords@[m].x()] == (m >= split) by {
                let d = coords@[m];
                CellCoord::lemma_coordinates(d);
                if m < k {
                    assert(d != c);
                    assert(!(d.x() == cx && d.y() == cy));
                    let (i, j) = (d.x(), d.y());
                    assert(black[j][i] == old_black[j][i] && white[j][i] == old_white[j][i]);
                }
            }
        }
        k += 1;
    }
    let masks = (PlacementMask(black), PlacementMask(white));
    proof {
        assert(coords@.take(k as int) =~= coords@);
        assert forall|y: int, x: int| in_bounds(x, y) implies #[trigger] masks.0.allows(x, y) != masks.1.allows(x, y) by {
            if !reserved_white(x, y) && !reserved_black(x, y) {
                CellCoord::lemma_at(x, y);
                assert(is_free_cell(CellCoord::at(x, y)));
                assert(coords@.contains(CellCoord::at(x, y)));
            }
        }
        assert forall|m: int| 0 <= m < coords@.len() implies masks.0.allows_cell(#[trigger] coords@[m]) == (m < 16)
            && masks.1.allows_cell(coords@[m]) == (m >= 16) by {
            CellCoord::lemma_coordinates(coords@[m]);
        }
        lemma_mask_size(masks.0, coords@, 0, 16, true);
        assert forall|y: int, x: int| in_bounds(x, y) && reserved_for(true, x, y) implies !#[trigger] masks.1.allows(x, y) by {
            assert(black[y][x] && !white[y][x]);
        }
        assert forall|y: int, x: int| in_bounds(x, y) && reserved_for(false, x, y) implies #[trigger] masks.1.allows(x, y) by {
            assert(white[y][x] && !black[y][x]);
        }
        lemma_mask_size(masks.1, coords@, 16, 32, false);
    }
    masks
}

/// The cells of the initial block that start with the disks of Black (or
/// of White).
pub open spec fn reserved_for(black: bool, x: int, y: int) -> bool {
    if black {
        reserved_black(x, y)
    } else {
        reserved_white(x, y)
    }
}

/// A mask that allows its player's two initial cells and, of the free
/// cells listed without repeats in `coords`, those at positions `lo..hi`,
/// allows `hi - lo + 2` cells.
proof fn lemma_mask_size(mask: PlacementMask, coords: Seq<CellCoord>, lo: int, hi: int, black: bool)
    requires
        coords.no_duplicates(),
        0 <= lo <= hi <= coords.len(),
        forall|m: int| 0 <= m < coords.len() ==> is_free_cell(#[trigger] coords[m]),
        forall|c: CellCoord| is_free_cell(c) ==> coords.contains(c),
        forall|m: int| 0 <= m < coords.len() ==> mask.allows((#[trigger] coords[m]).x(), coords[m].y()) == (lo <= m < hi),
        forall|y: int, x: int| in_bounds(x, y) && reserved_for(black, x, y) ==> #[trigger] mask.allows(x, y),
        forall|y: int, x: int| in_bounds(x, y) && reserved_for(!black, x, y) ==> !#[trigger] mask.allows(x, y),
    ensures
        allowed_cells(mask).finite(),
        allowed_cells(mask).len() == hi - lo + 2,
{
    broadcast use vstd::set::group_set_axioms, vstd::seq_lib::seq_to_set_is_finite;

    let part = coords.subrange(lo, hi);
    let a = if black { CellCoord::at(3, 2) } else { CellCoord::at(2, 2) };
    let b = if black { CellCoord::at(2, 3) } else { CellCoord::at(3, 3) };
    CellCoord::lemma_at(3, 2);
    CellCoord::lemma_at(2, 3);
    CellCoord::lemma_at(2, 2);
    CellCoord::lemma_at(3, 3);
    let cells = part.to_set().insert(a).insert(b);
    assert forall|c: CellCoord| #[trigger] allowed_cells(mask).contains(c) == cells.contains(c) by {
        CellCoord::lemma_coordinates(c);
        let x = c.x();
        let y = c.y();
        if part.contains(c) {
            let k = choose|k: int| 0 <= k < part.len() && part[k] == c;
            assert(coords[lo + k] == c);
        }
        if in_bounds(x, y) && !reserved_white(x, y) && !reserved_black(x, y) {
            assert(is_free_cell(c));
            assert(coords.contains(c));
            let m = choose|m: int| 0 <= m < coords.len() && coords[m] == c;
            if lo <= m < hi {
                assert(part[m - lo] == c);
            }
            if part.contains(c) {
                let k = choose|k: int| 0 <= k < part.len() && part[k] == c;
                assert(coords[lo + k] == c);
            }
        }
    }
    assert(allowed_cells(mask) =~= cells);
    assert(part.no_duplicates());
    part.unique_seq_to_set();
    assert(!part.to_set().contains(a)) by {
        if part.contains(a) {
            let k = choose|k: int| 0 <= k < part.len() && part[k] == a;
            assert(is_free_cell(coords[lo + k]));
        }
    }
    assert(!part.to_set().insert(a).contains(b)) by {
        if part.contains(b) {
            let k = choose|k: int| 0 <= k < part.len() && part[k] == b;
            assert(is_free_cell(coords[lo + k]));
        }
    }
}

} // verus!
