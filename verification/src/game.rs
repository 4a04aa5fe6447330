//! Game records: sequences of moves, their text form, and replaying them
//! under the rules with per-player placement masks.

use vstd::prelude::*;
use crate::board::{Board, BoardCellState, CellCoord, PlacementMask, PlayerColor, in_bounds, cell_text};
use crate::text::push_char;

verus! {

/// The cell `(x, y)` of the initial block whose top-left corner is
/// `(ox, oy)`: white at the corner and diagonally opposite it, black on the
/// other two cells of the block, empty elsewhere.
pub open spec fn initial_cell(ox: int, oy: int, x: int, y: int) -> BoardCellState {
    if (x == ox && y == oy) || (x == ox + 1 && y == oy + 1) {
        BoardCellState::White
    } else if (x == ox + 1 && y == oy) || (x == ox && y == oy + 1) {
        BoardCellState::Black
    } else {
        BoardCellState::Empty
    }
}

/// Build the initial Reversi board with a 2x2 block whose top-left corner is `origin`.
/// Color layout (same as standard Reversi):
///   origin        -> White
///   origin + (1,0) -> Black
///   origin + (0,1) -> Black
///   origin + (1,1) -> White
pub fn initial_board_at(origin: CellCoord) -> (board: Board)
    requires
        origin.x() <= 4,
        origin.y() <= 4,
    ensures
        forall|y: int, x: int| in_bounds(x, y) ==> #[trigger] board.cell(x, y) == initial_cell(origin.x(), origin.y(), x, y),
{
    let mut arr = [[0u8; 6]; 6];
    let x = *origin.column() as usize;
    let y = *origin.row() as usize;
    let mut top = arr[y];
    top[x] = 1;
    top[x + 1] = 2;
    arr[y] = top;
    let mut bottom = arr[y + 1];
    bottom[x] = 2;
    bottom[x + 1] = 1;
    arr[y + 1] = bottom;
    proof {
        assert forall|j: int, i: int| in_bounds(i, j) implies arr[j][i] <= 2 && crate::board::state_of_code(arr[j][i]) == initial_cell(x as int, y as int, i, j) by {
            if j == y as int {
                assert(arr[j] == top);
            } else if j == y as int + 1 {
                assert(arr[j] == bottom);
            }
        }
    }
    Board::from_012_array(arr)
}

/// The default initial board: the central block with its corner at C3.
pub fn initial_board() -> (board: Board)
    ensures
        forall|y: int, x: int| in_bounds(x, y) ==> #[trigger] board.cell(x, y) == initial_cell(2, 2, x, y),
        board == standard_initial_board(),
{
    let board = initial_board_at(CellCoord::new(2, 2));
    proof {
        let s = standard_initial_board();
        assert forall|y: int, x: int| in_bounds(x, y) implies #[trigger] board.cell(x, y) == s.cell(x, y) by {
            assert(board.cell(x, y) == initial_cell(2, 2, x, y));
        }
        Board::lemma_ext_equal(board, s);
    }
    board
}

/// A move as replayed: the cell, the player who placed there, and its index
/// in the game.
pub struct MoveInGame {
    pub cell: CellCoord,
    pub player: PlayerColor,
    pub turn_index: usize,
}

/// A sequence of cells, one per move, with no claim that they form a game.
pub struct UncheckedGameProgression(Vec<CellCoord>);

impl View for UncheckedGameProgression {
    type V = Seq<CellCoord>;

    closed spec fn view(&self) -> Seq<CellCoord> {
        self.0@
    }
}

/// Whether `s` is a game record: pairs of a column letter `A`..`F` and a
/// row digit `1`..`6`.
pub open spec fn is_game_record(s: Seq<char>) -> bool {
    &&& s.len() % 2 == 0
    &&& forall|i: int|
        0 <= i < s.len() / 2 ==> 'A' <= #[trigger] s[2 * i] <= 'F' && '1' <= s[2 * i + 1] <= '6'
}

/// The cells that a game record names, in order.
pub open spec fn record_cells(s: Seq<char>) -> Seq<CellCoord> {
    Seq::new(s.len() / 2, |i: int| CellCoord::at(s[2 * i] as int - 65, s[2 * i + 1] as int - 49))
}

/// The game record of a sequence of cells.
pub open spec fn record_text(cells: Seq<CellCoord>) -> Seq<char>
    decreases cells.len(),
{
    if cells.len() == 0 {
        seq![]
    } else {
        record_text(cells.drop_last()) + cell_text(cells.last())
    }
}

/// The placement mask that applies to `p`.
pub open spec fn mask_for(p: PlayerColor, black_mask: PlacementMask, white_mask: PlacementMask) -> PlacementMask {
    match p {
        PlayerColor::Black => black_mask,
        PlayerColor::White => white_mask,
    }
}

/// Whether `p` has a legal move that `mask` allows.
pub open spec fn has_allowed_move(board: Board, p: PlayerColor, mask: PlacementMask) -> bool {
    exists|i: int| 0 <= i < board.legal_moves(p).len() && mask.allows_cell(#[trigger] board.legal_moves(p)[i])
}

/// The player who moves when it is `current`'s turn: `current` if it has a
/// legal move that its mask allows, else its opponent.
pub open spec fn acting_player(board: Board, current: PlayerColor, black_mask: PlacementMask, white_mask: PlacementMask) -> PlayerColor {
    if has_allowed_move(board, current, mask_for(current, black_mask, white_mask)) {
        current
    } else {
        current.other()
    }
}

/// The board after playing `cells` from `board` with `current` to move, or
/// `None` where some move is not legal for the player who makes it.
pub open spec fn play_from(
    board: Board,
    current: PlayerColor,
    cells: Seq<CellCoord>,
    black_mask: PlacementMask,
    white_mask: PlacementMask,
) -> Option<Board>
    decreases cells.len(),
{
    if cells.len() == 0 {
        Some(board)
    } else {
        let p = acting_player(board, current, black_mask, white_mask);
        match board.after_move(cells[0].x(), cells[0].y(), p) {
            None => None,
            Some(next) => play_from(next, p.other(), cells.drop_first(), black_mask, white_mask),
        }
    }
}

/// The players who make the moves of `cells` from `board` with `current` to
/// move, up to and including the first move that is not legal.
pub open spec fn players_from(
    board: Board,
    current: PlayerColor,
    cells: Seq<CellCoord>,
    black_mask: PlacementMask,
    white_mask: PlacementMask,
) -> Seq<PlayerColor>
    decreases cells.len(),
{
    if cells.len() == 0 {
        seq![]
    } else {
        let p = acting_player(board, current, black_mask, white_mask);
        seq![p] + match board.after_move(cells[0].x(), cells[0].y(), p) {
            None => seq![],
            Some(next) => players_from(next, p.other(), cells.drop_first(), black_mask, white_mask),
        }
    }
}

/// The moves of a replay, as `to_moves` returns them.
pub open spec fn moves_of(cells: Seq<CellCoord>, players: Seq<PlayerColor>) -> Seq<MoveInGame> {
    Seq::new(players.len(), |i: int| MoveInGame { cell: cells[i], player: players[i], turn_index: i as usize })
}

impl UncheckedGameProgression {
    pub fn new(moves: Vec<CellCoord>) -> (progression: Self)
        ensures
            progression@ == moves@,
    {
        UncheckedGameProgression(moves)
    }

    /// Parses moves like "B3B2C2..." (columns ABCDEF, rows 123456).
    pub fn from_game_record_string(game_record: &str) -> (progression: Self)
        requires
            is_game_record(game_record@),
        ensures
            progression@ == record_cells(game_record@),
    {
        let len = game_record.unicode_len();
        let mut specs: Vec<CellCoord> = Vec::new();
        let mut i: usize = 0;
        while i + 1 < len
            invariant
                len == game_record@.len(),
                is_game_record(game_record@),
                i % 2 == 0,
                i <= len,
                specs@ == record_cells(game_record@).take(i as int / 2),
            decreases len - i,
        {
            let k = i / 2;
            assert(i == 2 * k);
            assert('A' <= game_record@[2 * k] <= 'F' && '1' <= game_record@[2 * k + 1] <= '6');
            let column_char = game_record.get_char(i);
            let row_char = game_record.get_char(i + 1);
            let column = (column_char as u32 - 65) as u8;
            let row = (row_char as u32 - 49) as u8;
            specs.push(CellCoord::new(column, row));
            proof {
                assert(specs@ =~= record_cells(game_record@).take(i as int / 2 + 1));
            }
            i = i + 2;
        }
        proof {
            assert(record_cells(game_record@).take(i as int / 2) =~= record_cells(game_record@));
        }
        UncheckedGameProgression(specs)
    }

    /// The game record of the moves: for each, its column letter and its row
    /// number counted from 1.
    pub fn to_game_record_string(&self) -> (record: String)
        ensures
            record@ == record_text(self@),
    {
        let mut result = String::new();
        let mut i: usize = 0;
        while i < self.0.len()
            invariant
                i <= self.0@.len(),
                result@ == record_text(self.0@.take(i as int)),
            decreases self.0@.len() - i,
        {
            let cell = self.0[i];
            let column = *cell.column();
            let row = *cell.row();
            push_char(&mut result, (65u8 + column) as char);
            push_char(&mut result, (49u8 + row) as char);
            proof {
                assert(self.0@.take(i as int + 1).drop_last() =~= self.0@.take(i as int));
                assert(result@ =~= record_text(self.0@.take(i as int + 1)));
            }
            i += 1;
        }
        proof {
            assert(self.0@.take(i as int) =~= self.0@);
        }
        result
    }
}

impl UncheckedGameProgression {
    /// Whether `player` has a legal move on `board` that `mask` allows.
    fn has_allowed_move_exec(board: &Board, player: PlayerColor, mask: &PlacementMask) -> (found: bool)
        ensures
            found == has_allowed_move(*board, player, *mask),
    {
        let moves = board.moves_available(&player);
        let mut i: usize = 0;
        while i < moves.len()
            invariant
                i <= moves@.len(),
                moves@ == board.legal_moves(player),
                forall|j: int| 0 <= j < i ==> !mask.allows_cell(#[trigger] board.legal_moves(player)[j]),
            decreases moves@.len() - i,
        {
            if mask.can_place_at_cell(moves[i]) {
                return true;
            }
            i += 1;
        }
        false
    }

    /// Replays the moves from `initial_board` with Black to move first; on
    /// each turn the player to move passes when it has no legal move that its
    /// mask allows. Returns the final board (`None` at the first move that is
    /// not legal for the player who makes it), every move observed, the
    /// failing one included, and the board before each observed move.
    fn play_through_and_observe_moves_sequentially(
        &self,
        black_mask: &PlacementMask,
        white_mask: &PlacementMask,
        initial_board: &Board,
    ) -> (outcome: (Option<Board>, Vec<MoveInGame>, Vec<Board>))
        ensures
            outcome.0 == play_from(*initial_board, PlayerColor::Black, self@, *black_mask, *white_mask),
            outcome.1@ == moves_of(self@, players_from(*initial_board, PlayerColor::Black, self@, *black_mask, *white_mask)),
            outcome.2@.len() == outcome.1@.len(),
            forall|j: int| 0 <= j < outcome.2@.len() ==> (#[trigger] play_state(
                *initial_board,
                PlayerColor::Black,
                self@.take(j),
                *black_mask,
                *white_mask,
            ) matches Some(state) && state.0 == outcome.2@[j]),
    {
        let ghost all = self@;
        let ghost start = *initial_board;
        let mut board = *initial_board;
        let mut current_player = PlayerColor::Black;
        let mut observed: Vec<MoveInGame> = Vec::new();
        let mut befores: Vec<Board> = Vec::new();
        let mut i: usize = 0;
        proof {
            assert(all.take(0) =~= Seq::<CellCoord>::empty());
            assert(all.skip(0) =~= all);
            assert(observed@.map_values(|m: MoveInGame| m.player) + players_from(board, current_player, all, *black_mask, *white_mask)
                =~= players_from(board, current_player, all, *black_mask, *white_mask));
        }
        while i < self.0.len()
            invariant
                all == self@,
                start == *initial_board,
                i <= all.len(),
                play_from(start, PlayerColor::Black, all, *black_mask, *white_mask)
                    == play_from(board, current_player, all.skip(i as int), *black_mask, *white_mask),
                players_from(start, PlayerColor::Black, all, *black_mask, *white_mask)
                    == observed@.map_values(|m: MoveInGame| m.player) + players_from(board, current_player, all.skip(i as int), *black_mask, *white_mask),
                observed@.len() == i,
                forall|j: int| 0 <= j < i ==> #[trigger] observed@[j] == (MoveInGame { cell: all[j], player: observed@[j].player, turn_index: j as usize }),
                befores@.len() == i,
                play_state(start, PlayerColor::Black, all.take(i as int), *black_mask, *white_mask) == Some((board, current_player)),
                forall|j: int| 0 <= j < i ==> (#[trigger] play_state(start, PlayerColor::Black, all.take(j), *black_mask, *white_mask) matches Some(
                    state,
                ) && state.0 == befores@[j]),
            decreases all.len() - i,
        {
            let cell = self.0[i];
            let ghost rest = all.skip(i as int);
            assert(rest[0] == cell);
            assert(rest.drop_first() =~= all.skip(i as int + 1));
            let mask = match current_player {
                PlayerColor::Black => black_mask,
                PlayerColor::White => white_mask,
            };
            let has_moves = Self::has_allowed_move_exec(&board, current_player, mask);
            let actual_player = if has_moves {
                current_player
            } else {
                current_player.opponent()
            };
            let ghost prev_players = observed@.map_values(|m: MoveInGame| m.player);
            observed.push(MoveInGame { cell, player: actual_player, turn_index: i });
            befores.push(board);
            proof {
                assert(observed@.map_values(|m: MoveInGame| m.player) =~= prev_players.push(actual_player));
            }
            match board.place_disk(*cell.column(), *cell.row(), &actual_player) {
                None => {
                    proof {
                        assert(actual_player == acting_player(board, current_player, *black_mask, *white_mask));
                        assert(board.after_move(rest[0].x(), rest[0].y(), actual_player) is None);
                        assert(play_from(board, current_player, rest, *black_mask, *white_mask) is None);
                        assert(players_from(board, current_player, rest, *black_mask, *white_mask) =~= seq![actual_player]);
                        assert(prev_players + seq![actual_player] =~= prev_players.push(actual_player));
                        assert(observed@.map_values(|m: MoveInGame| m.player) =~= players_from(start, PlayerColor::Black, all, *black_mask, *white_mask));
                        assert(observed@ =~= moves_of(all, players_from(start, PlayerColor::Black, all, *black_mask, *white_mask)));
                    }
                    return (None, observed, befores);
                },
                Some(next) => {
                    proof {
                        assert(prev_players + players_from(board, current_player, rest, *black_mask, *white_mask)
                            =~= prev_players.push(actual_player) + players_from(next, actual_player.other(), all.skip(i as int + 1), *black_mask, *white_mask));
                    }
                    proof {
                        lemma_play_state_push(start, PlayerColor::Black, all.take(i as int), cell, *black_mask, *white_mask);
                        assert(seq![cell].drop_first() =~= Seq::<CellCoord>::empty());
                        assert(seq![cell][0] == cell);
                        assert(play_state(next, actual_player.other(), Seq::<CellCoord>::empty(), *black_mask, *white_mask) == Some((next, actual_player.other())));
                        assert(play_state(board, current_player, seq![cell], *black_mask, *white_mask) == Some((next, actual_player.other())));
                        assert(all.take(i + 1) =~= all.take(i as int).push(cell));
                    }
                    board = next;
                    current_player = actual_player.opponent();
                },
            }
            i += 1;
        }
        proof {
            assert(all.skip(i as int) =~= Seq::<CellCoord>::empty());
            assert(observed@.map_values(|m: MoveInGame| m.player) + Seq::<PlayerColor>::empty() =~= observed@.map_values(|m: MoveInGame| m.player));
            assert(observed@ =~= moves_of(all, players_from(start, PlayerColor::Black, all, *black_mask, *white_mask)));
        }
        (Some(board), observed, befores)
    }

    /// The board reached by replaying the moves from `initial_board` (Black
    /// moves first; a player with no legal move that its mask allows passes),
    /// or `None` if some move is not legal for the player who makes it.
    pub fn play_through(
        &self,
        black_mask: &PlacementMask,
        white_mask: &PlacementMask,
        initial_board: &Board,
    ) -> (final_board: Option<Board>)
        ensures
            final_board == play_from(*initial_board, PlayerColor::Black, self@, *black_mask, *white_mask),
    {
        let (final_board, _, _) = self.play_through_and_observe_moves_sequentially(black_mask, white_mask, initial_board);
        final_board
    }

    /// The moves of the replay, each with the player who makes it and its
    /// index, up to and including the first move that is not legal.
    pub fn to_moves(
        &self,
        black_mask: &PlacementMask,
        white_mask: &PlacementMask,
        initial_board: &Board,
    ) -> (moves: Vec<MoveInGame>)
        ensures
            moves@ == moves_of(self@, players_from(*initial_board, PlayerColor::Black, self@, *black_mask, *white_mask)),
    {
        let (_, moves, _) = self.play_through_and_observe_moves_sequentially(black_mask, white_mask, initial_board);
        moves
    }
}

/// Reading back the record of cells on the board gives the cells back.
pub proof fn lemma_record_text_round_trip(cells: Seq<CellCoord>)
    requires
        forall|i: int| 0 <= i < cells.len() ==> 0 <= (#[trigger] cells[i]).x() < 6 && 0 <= cells[i].y() < 6,
    ensures
        is_game_record(record_text(cells)),
        record_cells(record_text(cells)) == cells,
    decreases cells.len(),
{
    let s = record_text(cells);
    if cells.len() > 0 {
        let init = cells.drop_last();
        assert forall|i: int| 0 <= i < init.len() implies 0 <= (#[trigger] init[i]).x() < 6 && 0 <= init[i].y() < 6 by {
            assert(init[i] == cells[i]);
        }
        lemma_record_text_round_trip(init);
        let prev = record_text(init);
        let c = cells.last();
        assert(0 <= c.x() < 6 && 0 <= c.y() < 6) by {
            assert(c == cells[cells.len() - 1]);
        }
        assert(s =~= prev + seq![(65 + c.x()) as char, (49 + c.y()) as char]);
        assert(prev.len() == 2 * init.len());
        assert forall|i: int| 0 <= i < s.len() / 2 implies 'A' <= #[trigger] s[2 * i] <= 'F' && '1' <= s[2 * i + 1] <= '6' by {
            if i < init.len() {
                assert(s[2 * i] == prev[2 * i] && s[2 * i + 1] == prev[2 * i + 1]);
            }
        }
        assert(record_cells(s) =~= cells) by {
            assert forall|i: int| 0 <= i < cells.len() implies #[trigger] record_cells(s)[i] == cells[i] by {
                if i < init.len() {
                    assert(s[2 * i] == prev[2 * i] && s[2 * i + 1] == prev[2 * i + 1]);
                    assert(record_cells(prev)[i] == init[i]);
                } else {
                    CellCoord::lemma_coordinates(c);
                }
            }
        }
    } else {
        assert(record_cells(s) =~= cells);
    }
}

/// Writing out the cells of a game record gives the record back.
pub proof fn lemma_record_cells_round_trip(s: Seq<char>)
    requires
        is_game_record(s),
    ensures
        record_text(record_cells(s)) == s,
    decreases s.len(),
{
    if s.len() > 0 {
        let n = s.len() / 2;
        let t = s.subrange(0, s.len() - 2);
        assert(is_game_record(t)) by {
            assert forall|i: int| 0 <= i < t.len() / 2 implies 'A' <= #[trigger] t[2 * i] <= 'F' && '1' <= t[2 * i + 1] <= '6' by {
                assert(t[2 * i] == s[2 * i] && t[2 * i + 1] == s[2 * i + 1]);
            }
        }
        lemma_record_cells_round_trip(t);
        let cells = record_cells(s);
        assert(cells.drop_last() =~= record_cells(t)) by {
            assert forall|i: int| 0 <= i < n - 1 implies #[trigger] cells.drop_last()[i] == record_cells(t)[i] by {
                assert(t[2 * i] == s[2 * i] && t[2 * i + 1] == s[2 * i + 1]);
            }
        }
        assert('A' <= s[2 * (n - 1)] <= 'F' && '1' <= s[2 * (n - 1) + 1] <= '6');
        let c = cells.last();
        CellCoord::lemma_at(s[2 * (n - 1)] as int - 65, s[2 * (n - 1) + 1] as int - 49);
        assert(cell_text(c) =~= seq![s[s.len() - 2], s[s.len() - 1]]);
        assert(s =~= t + seq![s[s.len() - 2], s[s.len() - 1]]);
    } else {
        assert(record_cells(s) =~= Seq::<CellCoord>::empty());
    }
}

/// Each move of a replay adds one disk: a replay of `n` moves that ends on
/// a board ends with `n` more disks than it started with.
pub proof fn lemma_play_adds_disks(
    board: Board,
    current: PlayerColor,
    cells: Seq<CellCoord>,
    black_mask: PlacementMask,
    white_mask: PlacementMask,
)
    requires
        play_from(board, current, cells, black_mask, white_mask) is Some,
    ensures
        play_from(board, current, cells, black_mask, white_mask)->0.filled_count() == board.filled_count() + cells.len(),
    decreases cells.len(),
{
    if cells.len() > 0 {
        let p = acting_player(board, current, black_mask, white_mask);
        let c = cells[0];
        board.lemma_after_move_exists(c.x(), c.y(), p);
        let next = board.after_move(c.x(), c.y(), p)->0;
        board.lemma_move_adds_one_disk(c.x(), c.y(), p, next);
        lemma_play_adds_disks(next, p.other(), cells.drop_first(), black_mask, white_mask);
    }
}

/// A replay that ends on a board names a player for every move.
pub proof fn lemma_players_cover_moves(
    board: Board,
    current: PlayerColor,
    cells: Seq<CellCoord>,
    black_mask: PlacementMask,
    white_mask: PlacementMask,
)
    requires
        play_from(board, current, cells, black_mask, white_mask) is Some,
    ensures
        players_from(board, current, cells, black_mask, white_mask).len() == cells.len(),
    decreases cells.len(),
{
    if cells.len() > 0 {
        let p = acting_player(board, current, black_mask, white_mask);
        let next = board.after_move(cells[0].x(), cells[0].y(), p)->0;
        lemma_players_cover_moves(next, p.other(), cells.drop_first(), black_mask, white_mask);
    }
}

/// The initial board holds four disks.
pub proof fn lemma_initial_board_disks(board: Board)
    requires
        forall|y: int, x: int| in_bounds(x, y) ==> #[trigger] board.cell(x, y) == initial_cell(2, 2, x, y),
    ensures
        board.filled_count() == 4,
{
    reveal_with_fuel(Board::filled_upto, 37);
    assert(board.filled_upto(36) == 4);
}

/// A board reached from the initial board in `n` moves holds `4 + n`
/// disks; so the encoding's number of moves, the target's disks minus
/// four, is the only length a solving game can have.
pub proof fn lemma_reached_disks(
    initial: Board,
    cells: Seq<CellCoord>,
    black_mask: PlacementMask,
    white_mask: PlacementMask,
)
    requires
        forall|y: int, x: int| in_bounds(x, y) ==> #[trigger] initial.cell(x, y) == initial_cell(2, 2, x, y),
        play_from(initial, PlayerColor::Black, cells, black_mask, white_mask) is Some,
    ensures
        play_from(initial, PlayerColor::Black, cells, black_mask, white_mask)->0.filled_count() == 4 + cells.len(),
{
    lemma_initial_board_disks(initial);
    lemma_play_adds_disks(initial, PlayerColor::Black, cells, black_mask, white_mask);
}

/// The board and the player to move after playing `cells` from `board` with
/// `current` to move, or `None` where some move is not legal for the player
/// who makes it.
pub open spec fn play_state(
    board: Board,
    current: PlayerColor,
    cells: Seq<CellCoord>,
    black_mask: PlacementMask,
    white_mask: PlacementMask,
) -> Option<(Board, PlayerColor)>
    decreases cells.len(),
{
    if cells.len() == 0 {
        Some((board, current))
    } else {
        let p = acting_player(board, current, black_mask, white_mask);
        match board.after_move(cells[0].x(), cells[0].y(), p) {
            None => None,
            Some(next) => play_state(next, p.other(), cells.drop_first(), black_mask, white_mask),
        }
    }
}

/// Playing one more move continues from where the shorter replay stopped.
pub proof fn lemma_play_state_push(
    board: Board,
    current: PlayerColor,
    cells: Seq<CellCoord>,
    c: CellCoord,
    black_mask: PlacementMask,
    white_mask: PlacementMask,
)
    requires
        play_state(board, current, cells, black_mask, white_mask) is Some,
    ensures
        ({
            let (b, cur) = play_state(board, current, cells, black_mask, white_mask)->0;
            &&& play_state(board, current, cells.push(c), black_mask, white_mask) == play_state(b, cur, seq![c], black_mask, white_mask)
            &&& play_from(board, current, cells.push(c), black_mask, white_mask) == play_from(b, cur, seq![c], black_mask, white_mask)
            &&& players_from(board, current, cells.push(c), black_mask, white_mask)
                    == players_from(board, current, cells, black_mask, white_mask) + players_from(b, cur, seq![c], black_mask, white_mask)
            &&& play_from(board, current, cells, black_mask, white_mask) == Some(b)
            &&& players_from(board, current, cells, black_mask, white_mask).len() == cells.len()
        }),
    decreases cells.len(),
{
    if cells.len() == 0 {
        assert(cells.push(c) =~= seq![c]);
        assert(players_from(board, current, cells, black_mask, white_mask) =~= Seq::<PlayerColor>::empty());
        assert(Seq::<PlayerColor>::empty() + players_from(board, current, seq![c], black_mask, white_mask)
            =~= players_from(board, current, seq![c], black_mask, white_mask));
    } else {
        let p = acting_player(board, current, black_mask, white_mask);
        let next = board.after_move(cells[0].x(), cells[0].y(), p)->0;
        assert(cells.push(c).drop_first() =~= cells.drop_first().push(c));
        assert(cells.push(c)[0] == cells[0]);
        lemma_play_state_push(next, p.other(), cells.drop_first(), c, black_mask, white_mask);
        let rest = players_from(next, p.other(), cells.drop_first(), black_mask, white_mask);
        let (b, cur) = play_state(board, current, cells, black_mask, white_mask)->0;
        let last = players_from(b, cur, seq![c], black_mask, white_mask);
        assert(seq![p] + (rest + last) =~= (seq![p] + rest) + last);
    }
}

/// Replaying to a board and a player to move, or to a board alone, agree.
pub proof fn lemma_play_from_state(
    board: Board,
    current: PlayerColor,
    cells: Seq<CellCoord>,
    black_mask: PlacementMask,
    white_mask: PlacementMask,
)
    ensures
        play_from(board, current, cells, black_mask, white_mask) == match play_state(board, current, cells, black_mask, white_mask) {
            Some(state) => Some(state.0),
            None => None,
        },
    decreases cells.len(),
{
    if cells.len() > 0 {
        let p = acting_player(board, current, black_mask, white_mask);
        if let Some(next) = board.after_move(cells[0].x(), cells[0].y(), p) {
            lemma_play_from_state(next, p.other(), cells.drop_first(), black_mask, white_mask);
        }
    }
}

/// A replay that plays every move names one player per move.
pub proof fn lemma_players_len(
    board: Board,
    current: PlayerColor,
    cells: Seq<CellCoord>,
    black_mask: PlacementMask,
    white_mask: PlacementMask,
)
    requires
        play_state(board, current, cells, black_mask, white_mask) is Some,
    ensures
        players_from(board, current, cells, black_mask, white_mask).len() == cells.len(),
    decreases cells.len(),
{
    if cells.len() > 0 {
        let p = acting_player(board, current, black_mask, white_mask);
        let next = board.after_move(cells[0].x(), cells[0].y(), p)->0;
        lemma_players_len(next, p.other(), cells.drop_first(), black_mask, white_mask);
    }
}

/// In a replay that plays every move, the player of move `t` is the one
/// who acts on the board reached after the first `t` moves.
pub proof fn lemma_players_act(
    board: Board,
    current: PlayerColor,
    cells: Seq<CellCoord>,
    black_mask: PlacementMask,
    white_mask: PlacementMask,
    t: int,
)
    requires
        play_state(board, current, cells, black_mask, white_mask) is Some,
        0 <= t < cells.len(),
    ensures
        players_from(board, current, cells, black_mask, white_mask).len() == cells.len(),
        play_state(board, current, cells.take(t), black_mask, white_mask) is Some,
        ({
            let state = play_state(board, current, cells.take(t), black_mask, white_mask)->0;
            players_from(board, current, cells, black_mask, white_mask)[t] == acting_player(state.0, state.1, black_mask, white_mask)
        }),
    decreases cells.len(),
{
    lemma_players_len(board, current, cells, black_mask, white_mask);
    let p = acting_player(board, current, black_mask, white_mask);
    if t == 0 {
        assert(cells.take(0) =~= Seq::<CellCoord>::empty());
    } else {
        let next = board.after_move(cells[0].x(), cells[0].y(), p)->0;
        let rest = cells.drop_first();
        lemma_players_act(next, p.other(), rest, black_mask, white_mask, t - 1);
        assert(cells.take(t).drop_first() =~= rest.take(t - 1));
        assert(cells.take(t)[0] == cells[0]);
    }
}

/// A replay that succeeds succeeds on every prefix of its moves.
pub proof fn lemma_play_prefix(
    board: Board,
    current: PlayerColor,
    cells: Seq<CellCoord>,
    k: int,
    black_mask: PlacementMask,
    white_mask: PlacementMask,
)
    requires
        0 <= k <= cells.len(),
        play_from(board, current, cells, black_mask, white_mask) is Some,
    ensures
        play_state(board, current, cells.take(k), black_mask, white_mask) is Some,
    decreases cells.len(),
{
    if k == 0 {
        assert(cells.take(0) =~= Seq::<CellCoord>::empty());
    } else {
        let p = acting_player(board, current, black_mask, white_mask);
        let next = board.after_move(cells[0].x(), cells[0].y(), p)->0;
        lemma_play_prefix(next, p.other(), cells.drop_first(), k - 1, black_mask, white_mask);
        assert(cells.take(k)[0] == cells[0]);
        assert(cells.take(k).drop_first() =~= cells.drop_first().take(k - 1));
    }
}

/// The game record of `cells` replayed from `board` with Black to move
/// first, with `--` before each move whose player to move passes and leaves
/// the move to its opponent.
pub open spec fn record_with_passes(board: Board, cells: Seq<CellCoord>, black_mask: PlacementMask, white_mask: PlacementMask) -> Seq<char>
    decreases cells.len(),
{
    if cells.len() == 0 {
        seq![]
    } else {
        let prev = cells.drop_last();
        let state = play_state(board, PlayerColor::Black, prev, black_mask, white_mask)->0;
        let pass = if acting_player(state.0, state.1, black_mask, white_mask) != state.1 {
            seq!['-', '-']
        } else {
            seq![]
        };
        record_with_passes(board, prev, black_mask, white_mask) + pass + cell_text(cells.last())
    }
}

/// `cells` as a record, with `--` before move `t` where `marks[t]` holds.
pub open spec fn marked_record(cells: Seq<CellCoord>, marks: Seq<bool>) -> Seq<char>
    decreases cells.len(),
{
    if cells.len() == 0 {
        seq![]
    } else {
        marked_record(cells.drop_last(), marks.drop_last()) + (if marks.last() {
            seq!['-', '-']
        } else {
            seq![]
        }) + cell_text(cells.last())
    }
}

/// Whether the player of move `t` of a replay (the one `players_from`
/// names) is not the player to move after the first `t` moves: the player
/// to move passed.
pub open spec fn passed_before(
    board: Board,
    cells: Seq<CellCoord>,
    t: int,
    black_mask: PlacementMask,
    white_mask: PlacementMask,
) -> bool {
    let state = play_state(board, PlayerColor::Black, cells.take(t), black_mask, white_mask)->0;
    players_from(board, PlayerColor::Black, cells, black_mask, white_mask)[t] != state.1
}

/// The record with passes of a replay that plays every move is the record
/// of its moves with `--` before exactly those moves whose player (the one
/// `players_from` names, who acts under its own mask) is not the player to
/// move.
pub proof fn lemma_record_marks_passes(board: Board, cells: Seq<CellCoord>, black_mask: PlacementMask, white_mask: PlacementMask)
    requires
        play_from(board, PlayerColor::Black, cells, black_mask, white_mask) is Some,
    ensures
        record_with_passes(board, cells, black_mask, white_mask) == marked_record(
            cells,
            Seq::new(cells.len(), |t: int| passed_before(board, cells, t, black_mask, white_mask)),
        ),
    decreases cells.len(),
{
    let n = cells.len() as int;
    if n > 0 {
        let prev = cells.drop_last();
        let c = cells.last();
        lemma_play_prefix(board, PlayerColor::Black, cells, n - 1, black_mask, white_mask);
        lemma_play_prefix(board, PlayerColor::Black, cells, n, black_mask, white_mask);
        assert(cells.take(n - 1) =~= prev);
        assert(cells.take(n) =~= cells);
        assert(prev.push(c) =~= cells);
        lemma_play_state_push(board, PlayerColor::Black, prev, c, black_mask, white_mask);
        lemma_record_marks_passes(board, prev, black_mask, white_mask);
        lemma_players_len(board, PlayerColor::Black, prev, black_mask, white_mask);
        lemma_players_act(board, PlayerColor::Black, cells, black_mask, white_mask, n - 1);
        let marks = Seq::new(cells.len(), |t: int| passed_before(board, cells, t, black_mask, white_mask));
        let prev_marks = Seq::new(prev.len(), |t: int| passed_before(board, prev, t, black_mask, white_mask));
        assert forall|t: int| 0 <= t < prev.len() implies #[trigger] prev_marks[t] == marks.drop_last()[t] by {
            assert(prev.take(t) =~= cells.take(t));
            assert(players_from(board, PlayerColor::Black, cells, black_mask, white_mask)[t] == players_from(
                board,
                PlayerColor::Black,
                prev,
                black_mask,
                white_mask,
            )[t]);
        }
        assert(prev_marks =~= marks.drop_last());
    }
}

impl UncheckedGameProgression {
    /// The game record of the moves replayed from `initial_board`, Black
    /// first, with `--` before each move whose player to move passes (see
    /// `record_with_passes`).
    pub fn to_game_record_string_with_passes(
        &self,
        black_mask: &PlacementMask,
        white_mask: &PlacementMask,
        initial_board: &Board,
    ) -> (record: String)
        requires
            play_from(*initial_board, PlayerColor::Black, self@, *black_mask, *white_mask) is Some,
        ensures
            record@ == record_with_passes(*initial_board, self@, *black_mask, *white_mask),
    {
        let ghost init = *initial_board;
        let ghost bm = *black_mask;
        let ghost wm = *white_mask;
        let mut board = *initial_board;
        let mut current = PlayerColor::Black;
        let mut result = String::new();
        let mut i: usize = 0;
        proof {
            assert(self@.take(0) =~= Seq::<CellCoord>::empty());
        }
        while i < self.0.len()
            invariant
                i <= self@.len(),
                self@ == self.0@,
                init == *initial_board,
                bm == *black_mask,
                wm == *white_mask,
                play_from(init, PlayerColor::Black, self@, bm, wm) is Some,
                play_state(init, PlayerColor::Black, self@.take(i as int), bm, wm) == Some((board, current)),
                result@ == record_with_passes(init, self@.take(i as int), bm, wm),
            decreases self@.len() - i,
        {
            let cell = self.0[i];
            let moves_current = moves_available_with_mask(&board, &current, black_mask, white_mask);
            let ghost prev = self@.take(i as int);
            proof {
                lemma_allowed_moves_nonempty(board, current, mask_for(current, bm, wm));
                lemma_play_prefix(init, PlayerColor::Black, self@, i + 1, bm, wm);
                assert(self@.take(i + 1) =~= prev.push(cell));
                lemma_play_state_push(init, PlayerColor::Black, prev, cell, bm, wm);
                assert(seq![cell][0] == cell);
                assert(seq![cell].drop_first() =~= Seq::<CellCoord>::empty());
                assert(self@.take(i + 1).drop_last() =~= prev);
            }
            let mover = if moves_current.len() == 0 {
                current.opponent()
            } else {
                current
            };
            let ghost before = result@;
            if moves_current.len() == 0 {
                push_char(&mut result, '-');
                push_char(&mut result, '-');
            }
            let column = *cell.column();
            let row = *cell.row();
            push_char(&mut result, (65u8 + column) as char);
            push_char(&mut result, (49u8 + row) as char);
            proof {
                let pass: Seq<char> = if moves_current.len() == 0 { seq!['-', '-'] } else { seq![] };
                assert(result@ =~= before + pass + cell_text(cell));
            }
            match board.place_disk(column, row, &mover) {
                Some(next) => {
                    proof {
                        assert(play_state(next, mover.other(), seq![cell].drop_first(), bm, wm) == Some((next, mover.other())));
                    }
                    board = next;
                    current = mover.opponent();
                },
                None => {
                    proof {
                        assert(false);
                    }
                },
            }
            i += 1;
        }
        proof {
            assert(self@.take(i as int) =~= self@);
        }
        result
    }
}

/// A legal move leaves every filled cell filled.
pub proof fn lemma_move_keeps_filled(board: Board, x: int, y: int, p: PlayerColor, tx: int, ty: int)
    requires
        board.is_legal_move(x, y, p),
        in_bounds(tx, ty),
        board.cell(tx, ty) != BoardCellState::Empty,
    ensures
        board.after_move(x, y, p) matches Some(r) && r.cell(tx, ty) != BoardCellState::Empty,
{
    board.lemma_after_move_exists(x, y, p);
    let r = board.after_move(x, y, p)->0;
    assert(r.cell(tx, ty) == board.cell_after_move(x, y, p, tx, ty));
}

/// A filled cell stays filled through a replay.
pub proof fn lemma_play_keeps_filled(
    board: Board,
    current: PlayerColor,
    cells: Seq<CellCoord>,
    black_mask: PlacementMask,
    white_mask: PlacementMask,
    tx: int,
    ty: int,
)
    requires
        in_bounds(tx, ty),
        board.cell(tx, ty) != BoardCellState::Empty,
        play_from(board, current, cells, black_mask, white_mask) is Some,
    ensures
        play_from(board, current, cells, black_mask, white_mask)->0.cell(tx, ty) != BoardCellState::Empty,
    decreases cells.len(),
{
    if cells.len() > 0 {
        let p = acting_player(board, current, black_mask, white_mask);
        lemma_move_keeps_filled(board, cells[0].x(), cells[0].y(), p, tx, ty);
        let next = board.after_move(cells[0].x(), cells[0].y(), p)->0;
        lemma_play_keeps_filled(next, p.other(), cells.drop_first(), black_mask, white_mask, tx, ty);
    }
}

/// The four centre cells are filled on every board that a replay from the
/// initial board reaches.
pub proof fn lemma_centre_stays_filled(cells: Seq<CellCoord>, black_mask: PlacementMask, white_mask: PlacementMask)
    requires
        play_from(standard_initial_board(), PlayerColor::Black, cells, black_mask, white_mask) is Some,
    ensures
        ({
            let r = play_from(standard_initial_board(), PlayerColor::Black, cells, black_mask, white_mask)->0;
            &&& r.cell(2, 2) != BoardCellState::Empty
            &&& r.cell(3, 2) != BoardCellState::Empty
            &&& r.cell(2, 3) != BoardCellState::Empty
            &&& r.cell(3, 3) != BoardCellState::Empty
        }),
{
    let s = standard_initial_board();
    lemma_play_keeps_filled(s, PlayerColor::Black, cells, black_mask, white_mask, 2, 2);
    lemma_play_keeps_filled(s, PlayerColor::Black, cells, black_mask, white_mask, 3, 2);
    lemma_play_keeps_filled(s, PlayerColor::Black, cells, black_mask, white_mask, 2, 3);
    lemma_play_keeps_filled(s, PlayerColor::Black, cells, black_mask, white_mask, 3, 3);
}

/// The standard initial board: white on C3 and D4, black on D3 and C4.
pub open spec fn standard_initial_board() -> Board {
    let e = BoardCellState::Empty;
    let w = BoardCellState::White;
    let b = BoardCellState::Black;
    Board([
        [e, e, e, e, e, e],
        [e, e, e, e, e, e],
        [e, e, w, b, e, e],
        [e, e, b, w, e, e],
        [e, e, e, e, e, e],
        [e, e, e, e, e, e],
    ])
}

/// The legal moves of `player` that its mask allows, in row-major order.
pub fn moves_available_with_mask(
    board: &Board,
    player: &PlayerColor,
    black_mask: &PlacementMask,
    white_mask: &PlacementMask,
) -> (moves: Vec<CellCoord>)
    ensures
        moves@ == board.legal_moves(*player).filter(|c: CellCoord| mask_for(*player, *black_mask, *white_mask).allows_cell(c)),
{
    let mask = match player {
        PlayerColor::Black => black_mask,
        PlayerColor::White => white_mask,
    };
    let ghost pred = |c: CellCoord| mask_for(*player, *black_mask, *white_mask).allows_cell(c);
    let all = board.moves_available(player);
    let mut moves: Vec<CellCoord> = Vec::new();
    let mut i: usize = 0;
    while i < all.len()
        invariant
            i <= all@.len(),
            *mask == mask_for(*player, *black_mask, *white_mask),
            pred == (|c: CellCoord| mask_for(*player, *black_mask, *white_mask).allows_cell(c)),
            moves@ == all@.take(i as int).filter(pred),
        decreases all@.len() - i,
    {
        proof {
            reveal(Seq::filter);
            assert(all@.take(i + 1).drop_last() =~= all@.take(i as int));
            assert(all@.take(i + 1).last() == all@[i as int]);
        }
        if mask.can_place_at_cell(all[i]) {
            moves.push(all[i]);
        }
        i += 1;
    }
    proof {
        assert(all@.take(i as int) =~= all@);
    }
    moves
}

/// A player has a legal move that its mask allows exactly where the list of
/// such moves is not empty.
pub proof fn lemma_allowed_moves_nonempty(board: Board, p: PlayerColor, mask: PlacementMask)
    ensures
        board.legal_moves(p).filter(|c: CellCoord| mask.allows_cell(c)).len() > 0 <==> has_allowed_move(board, p, mask),
{
    let s = board.legal_moves(p);
    let pred = |c: CellCoord| mask.allows_cell(c);
    let f = s.filter(pred);
    if f.len() > 0 {
        s.lemma_filter_pred(pred, 0);
        s.lemma_filter_contains_rev(pred, f[0]);
        let i = choose|i: int| 0 <= i < s.len() && s[i] == f[0];
        assert(mask.allows_cell(s[i]));
    }
    if has_allowed_move(board, p, mask) {
        let i = choose|i: int| 0 <= i < s.len() && mask.allows_cell(#[trigger] s[i]);
        s.lemma_filter_contains(pred, i);
    }
}

} // verus!
