//! The 6x6 board, its cells, the two players, placement masks, and the rules
//! of Reversi that decide which moves are legal and which disks they flip.

use vstd::prelude::*;
use crate::text::push_char;

pub mod example_boards;

verus! {

/// A board as two 36-bit sets: bit `y * 6 + x` stands for the cell in
/// column `x` and row `y`.
///
/// A valid bitboard has no bit set in both words and no bit at 36 or above.
pub struct BitBoard {
    pub white: u64,
    pub black: u64,
}

/// What a cell of the board holds.
#[derive(Clone, Copy, PartialEq, Eq, Structural, Debug)]
pub enum BoardCellState {
    Empty,
    White,
    Black,
}

/// A 6x6 Reversi board, indexed `[row][column]`.
#[derive(Clone, Copy, Debug)]
pub struct Board(pub [[BoardCellState; 6]; 6]);

/// One of the two players.
#[derive(Clone, Copy, PartialEq, Eq, Structural, Debug)]
pub enum PlayerColor {
    Black,
    White,
}

impl PlayerColor {
    /// The other player.
    pub open spec fn other(self) -> PlayerColor {
        match self {
            PlayerColor::Black => PlayerColor::White,
            PlayerColor::White => PlayerColor::Black,
        }
    }

    /// The disk that this player places.
    pub open spec fn disk(self) -> BoardCellState {
        match self {
            PlayerColor::Black => BoardCellState::Black,
            PlayerColor::White => BoardCellState::White,
        }
    }

    /// The other player.
    pub fn opponent(&self) -> (other: PlayerColor)
        ensures
            other == self.other(),
    {
        match self {
            PlayerColor::Black => PlayerColor::White,
            PlayerColor::White => PlayerColor::Black,
        }
    }
}

/// A cell of the board: a column `A`..`F` (0..6) and a row `1`..`6` (0..6).
#[derive(Clone, Copy, PartialEq, Eq, Structural, Debug)]
pub struct CellCoord {
    column: u8,
    row: u8,
}

impl CellCoord {
    /// Both coordinates lie on the board.
    #[verifier::type_invariant]
    closed spec fn on_board(self) -> bool {
        self.column < 6 && self.row < 6
    }

    /// The column index.
    pub closed spec fn x(self) -> int {
        self.column as int
    }

    /// The row index.
    pub closed spec fn y(self) -> int {
        self.row as int
    }

    /// The cell in column `x` and row `y`.
    pub closed spec fn at(x: int, y: int) -> CellCoord {
        CellCoord { column: x as u8, row: y as u8 }
    }

    /// `at` gives back its coordinates, and a cell is determined by them.
    pub proof fn lemma_at(x: int, y: int)
        requires
            in_bounds(x, y),
        ensures
            CellCoord::at(x, y).x() == x,
            CellCoord::at(x, y).y() == y,
    {
    }

    /// A cell is the one at its own coordinates.
    pub proof fn lemma_coordinates(c: CellCoord)
        ensures
            c == CellCoord::at(c.x(), c.y()),
            0 <= c.x() < 256,
            0 <= c.y() < 256,
    {
    }

    /// The cell in column `column` and row `row`.
    pub fn new(column: u8, row: u8) -> (c: Self)
        requires
            column < 6,
            row < 6,
        ensures
            c == CellCoord::at(column as int, row as int),
            c.x() == column,
            c.y() == row,
    {
        CellCoord { column, row }
    }

    /// The column index, below 6.
    pub fn column(&self) -> (c: &u8)
        ensures
            *c == self.x(),
            *c < 6,
    {
        proof {
            use_type_invariant(self);
        }
        &self.column
    }

    /// The row index, below 6.
    pub fn row(&self) -> (r: &u8)
        ensures
            *r == self.y(),
            *r < 6,
    {
        proof {
            use_type_invariant(self);
        }
        &self.row
    }

    /// The cell in game-record notation, such as `B3`: the column letter and
    /// the row number counted from 1.
    pub fn to_string(&self) -> (text: String)
        ensures
            text@ == cell_text(*self),
    {
        proof {
            use_type_invariant(self);
        }
        let mut text = String::new();
        push_char(&mut text, (65u8 + self.column) as char);
        push_char(&mut text, (49u8 + self.row) as char);
        proof {
            assert(text@ =~= cell_text(*self));
        }
        text
    }
}

/// The two characters that name a cell in a game record.
pub open spec fn cell_text(c: CellCoord) -> Seq<char> {
    seq![(65 + c.x()) as char, (49 + c.y()) as char]
}

/// Whether `(x, y)` names a cell of the board.
pub open spec fn in_bounds(x: int, y: int) -> bool {
    0 <= x < 6 && 0 <= y < 6
}

/// The cell state that a code of `from_012_array` stands for.
pub open spec fn state_of_code(code: u8) -> BoardCellState {
    if code == 0 {
        BoardCellState::Empty
    } else if code == 1 {
        BoardCellState::White
    } else {
        BoardCellState::Black
    }
}

/// Bit `i` of `v`.
pub open spec fn bit(v: u64, i: int) -> bool {
    (v >> (i as u64)) & 1u64 == 1u64
}

impl Board {
    /// The content of the cell in column `x` and row `y`.
    pub open spec fn cell(self, x: int, y: int) -> BoardCellState {
        self.0[y][x]
    }

    /// Number of non-empty cells among the first `n` cells in row-major order.
    pub open spec fn filled_upto(self, n: int) -> int
        decreases n,
    {
        if n <= 0 {
            0
        } else {
            self.filled_upto(n - 1) + if self.cell((n - 1) % 6, (n - 1) / 6) != BoardCellState::Empty {
                1int
            } else {
                0int
            }
        }
    }

    /// At most `n` of the first `n` cells are filled.
    pub proof fn lemma_filled_upto_bound(self, n: int)
        requires
            n >= 0,
        ensures
            0 <= self.filled_upto(n) <= n,
        decreases n,
    {
        if n > 0 {
            self.lemma_filled_upto_bound(n - 1);
        }
    }

    /// Number of non-empty cells of the board.
    pub open spec fn filled_count(self) -> int {
        self.filled_upto(36)
    }

    /// Creates a Board from a 6x6 array of 0s, 1s, and 2s, indexed
    /// `[row][column]`: 0 = Empty, 1 = White, 2 = Black.
    pub fn from_012_array(arr: [[u8; 6]; 6]) -> (board: Self)
        requires
            forall|y: int, x: int| in_bounds(x, y) ==> arr[y][x] <= 2,
        ensures
            forall|y: int, x: int| in_bounds(x, y) ==> board.cell(x, y) == state_of_code(arr[y][x]),
    {
        let mut board = [[BoardCellState::Empty; 6]; 6];
        let mut i: usize = 0;
        while i < 6
            invariant
                i <= 6,
                forall|y: int, x: int| in_bounds(x, y) ==> arr[y][x] <= 2,
                forall|y: int, x: int| 0 <= y < i && 0 <= x < 6 ==> board[y][x] == state_of_code(arr[y][x]),
            decreases 6 - i,
        {
            let mut row = [BoardCellState::Empty; 6];
            let mut j: usize = 0;
            while j < 6
                invariant
                    i < 6,
                    j <= 6,
                    forall|y: int, x: int| in_bounds(x, y) ==> arr[y][x] <= 2,
                    forall|x: int| 0 <= x < j ==> row[x] == state_of_code(arr[i as int][x]),
                decreases 6 - j,
            {
                let code = arr[i][j];
                row[j] = if code == 0 {
                    BoardCellState::Empty
                } else if code == 1 {
                    BoardCellState::White
                } else {
                    BoardCellState::Black
                };
                j += 1;
            }
            board[i] = row;
            i += 1;
        }
        Board(board)
    }
}

/// The character that `to_string_block` prints for a cell.
pub open spec fn cell_char(s: BoardCellState) -> char {
    match s {
        BoardCellState::Empty => '.',
        BoardCellState::White => 'W',
        BoardCellState::Black => 'B',
    }
}

/// The decimal digit character for `d` in `0..10`.
pub open spec fn digit_char(d: int) -> char {
    (48 + d) as char
}

/// The two header lines of `Board::to_string_block`.
pub open spec fn block_header() -> Seq<char> {
    seq![' ', ' ', ' ', 'A', 'B', 'C', 'D', 'E', 'F', '\n', ' ', ' ', ' ', '-', '-', '-', '-', '-', '-', '\n']
}

/// Whether `v` has no bit at position 36 or above.
pub open spec fn within_board_bits(v: u64) -> bool {
    v < 0x1000000000
}

/// Setting a bit of `w` that `b` does not have keeps `w` and `b` disjoint.
pub proof fn lemma_or_shl_disjoint(w: u64, b: u64, p: u64)
    requires
        p < 64,
        w & b == 0u64 || b & w == 0u64,
        (b >> p) & 1u64 != 1u64,
    ensures
        (w | (1u64 << p)) & b == 0u64,
        b & (w | (1u64 << p)) == 0u64,
{
    assert((w | (1u64 << p)) & b == 0u64 && b & (w | (1u64 << p)) == 0u64) by (bit_vector)
        requires
            p < 64,
            w & b == 0u64 || b & w == 0u64,
            (b >> p) & 1u64 != 1u64,
    ;
}

/// Setting bit `p` of a word below `2^p` gives a word below `2^(p+1)`.
pub proof fn lemma_or_shl_bound(w: u64, p: u64)
    requires
        p < 63,
        w < (1u64 << p),
    ensures
        (w | (1u64 << p)) < (1u64 << (p + 1)),
        w < (1u64 << (p + 1)),
{
    assert((w | (1u64 << p)) < (1u64 << (p + 1)) && w < (1u64 << (p + 1))) by (bit_vector)
        requires
            p < 63,
            w < (1u64 << p),
    ;
}

/// Bit `i` of `w | (1 << p)` is bit `i` of `w`, or set where `i == p`.
pub proof fn lemma_bit_of_or_shl(w: u64, p: u64, i: u64)
    requires
        p < 64,
        i < 64,
    ensures
        ((w | (1u64 << p)) >> i) & 1u64 == if i == p {
            1u64
        } else {
            (w >> i) & 1u64
        },
{
    assert(((w | (1u64 << p)) >> i) & 1u64 == if i == p {
        1u64
    } else {
        (w >> i) & 1u64
    }) by (bit_vector)
        requires
            p < 64,
            i < 64,
    ;
}

/// The zero word has no bit set.
pub proof fn lemma_bit_of_zero(i: u64)
    requires
        i < 64,
    ensures
        (0u64 >> i) & 1u64 == 0u64,
{
    assert((0u64 >> i) & 1u64 == 0u64) by (bit_vector);
}

impl Board {
    /// The text of row `y` in `to_string_block`.
    pub open spec fn row_text(self, y: int) -> Seq<char> {
        seq![digit_char(y), ' ', '|'] + Seq::new(6, |x: int| cell_char(self.cell(x, y))) + seq!['\n']
    }

    /// The text of the first `n` rows in `to_string_block`.
    pub open spec fn rows_text(self, n: int) -> Seq<char>
        decreases n,
    {
        if n <= 0 {
            seq![]
        } else {
            self.rows_text(n - 1) + self.row_text(n - 1)
        }
    }

    /// The bitboard pair of the board: bit `y * 6 + x` of `white` (resp.
    /// `black`) is set exactly when the cell in column `x`, row `y` holds a
    /// white (resp. black) disk; no bit at 36 or above is set.
    pub fn to_bitboards(&self) -> (bb: BitBoard)
        ensures
            self.has_bitboards(bb),
            bb.white & bb.black == 0u64,
    {
        let mut white: u64 = 0;
        let mut black: u64 = 0;
        let mut y: usize = 0;
        proof {
            assert(0u64 < (1u64 << 0u64)) by (bit_vector);
            assert(0u64 & 0u64 == 0u64) by (bit_vector);
            assert forall|i: int| 0 <= i < 64 implies !bit(white, i) && !bit(black, i) by {
                lemma_bit_of_zero(i as u64);
            }
        }
        while y < 6
            invariant
                y <= 6,
                forall|i: int| 0 <= i < 64 ==> (bit(white, i) <==> (i < y * 6 && self.cell(i % 6, i / 6) == BoardCellState::White)),
                forall|i: int| 0 <= i < 64 ==> (bit(black, i) <==> (i < y * 6 && self.cell(i % 6, i / 6) == BoardCellState::Black)),
                white < (1u64 << ((y * 6) as u64)),
                black < (1u64 << ((y * 6) as u64)),
                white & black == 0u64,
            decreases 6 - y,
        {
            let mut x: usize = 0;
            while x < 6
                invariant
                    y < 6,
                    x <= 6,
                    forall|i: int| 0 <= i < 64 ==> (bit(white, i) <==> (i < y * 6 + x && self.cell(i % 6, i / 6) == BoardCellState::White)),
                    forall|i: int| 0 <= i < 64 ==> (bit(black, i) <==> (i < y * 6 + x && self.cell(i % 6, i / 6) == BoardCellState::Black)),
                    white < (1u64 << ((y * 6 + x) as u64)),
                    black < (1u64 << ((y * 6 + x) as u64)),
                    white & black == 0u64,
                decreases 6 - x,
            {
                let pos = (y * 6 + x) as u64;
                let ghost old_white = white;
                let ghost old_black = black;
                assert(pos as int % 6 == x as int && pos as int / 6 == y as int);
                let state = self.0[y][x];
                assert(state == self.cell(pos as int % 6, pos as int / 6));
                match state {
                    BoardCellState::White => white = white | (1u64 << pos),
                    BoardCellState::Black => black = black | (1u64 << pos),
                    BoardCellState::Empty => {},
                }
                proof {
                    assert(!bit(old_black, pos as int) && !bit(old_white, pos as int));
                    lemma_or_shl_disjoint(old_white, old_black, pos);
                    lemma_or_shl_disjoint(old_black, old_white, pos);
                    lemma_or_shl_bound(old_white, pos);
                    lemma_or_shl_bound(old_black, pos);
                    assert forall|i: int| 0 <= i < 64 implies (bit(white, i) <==> (i < y * 6 + x + 1 && self.cell(i % 6, i / 6) == BoardCellState::White)) by {
                        lemma_bit_of_or_shl(old_white, pos, i as u64);
                        assert(bit(old_white, i) <==> (i < y * 6 + x && self.cell(i % 6, i / 6) == BoardCellState::White));
                        if i == pos {
                            assert(self.cell(i % 6, i / 6) == state);
                        }
                        if state != BoardCellState::White {
                            assert(white == old_white);
                        }
                    }
                    assert forall|i: int| 0 <= i < 64 implies (bit(black, i) <==> (i < y * 6 + x + 1 && self.cell(i % 6, i / 6) == BoardCellState::Black)) by {
                        lemma_bit_of_or_shl(old_black, pos, i as u64);
                        assert(bit(old_black, i) <==> (i < y * 6 + x && self.cell(i % 6, i / 6) == BoardCellState::Black));
                        if i == pos {
                            assert(self.cell(i % 6, i / 6) == state);
                        }
                        if state != BoardCellState::Black {
                            assert(black == old_black);
                        }
                    }
                }
                x += 1;
            }
            y += 1;
        }
        proof {
            assert((1u64 << 36u64) == 0x1000000000u64) by (bit_vector);
        }
        BitBoard { white, black }
    }

    /// Number of non-empty cells.
    pub fn filled_cells_count(&self) -> (count: usize)
        ensures
            count == self.filled_count(),
    {
        let mut count: usize = 0;
        let mut y: usize = 0;
        while y < 6
            invariant
                y <= 6,
                count == self.filled_upto(y * 6),
                count <= y * 6,
            decreases 6 - y,
        {
            let mut x: usize = 0;
            while x < 6
                invariant
                    y < 6,
                    x <= 6,
                    count == self.filled_upto(y * 6 + x),
                    count <= y * 6 + x,
                decreases 6 - x,
            {
                assert((y * 6 + x) as int % 6 == x as int && (y * 6 + x) as int / 6 == y as int);
                if self.0[y][x] != BoardCellState::Empty {
                    count += 1;
                }
                x += 1;
            }
            y += 1;
        }
        count
    }

    /// The board as text: a header with the column letters, then one line
    /// per row: the row index from 0, a space, a bar, and one character per
    /// cell (`.` empty, `W` white, `B` black).
    pub fn to_string_block(&self) -> (text: String)
        ensures
            text@ == block_header() + self.rows_text(6),
    {
        let mut result = String::new();
        result.append("   ABCDEF\n");
        result.append("   ------\n");
        proof {
            reveal_strlit("   ABCDEF\n");
            reveal_strlit("   ------\n");
            assert(result@ =~= block_header() + self.rows_text(0));
        }
        let mut y: usize = 0;
        while y < 6
            invariant
                y <= 6,
                result@ == block_header() + self.rows_text(y as int),
            decreases 6 - y,
        {
            let ghost before = result@;
            push_char(&mut result, ((48u8 + y as u8) as char));
            push_char(&mut result, ' ');
            push_char(&mut result, '|');
            let mut x: usize = 0;
            while x < 6
                invariant
                    y < 6,
                    x <= 6,
                    result@ == before + seq![digit_char(y as int), ' ', '|'] + Seq::new(x as nat, |i: int| cell_char(self.cell(i, y as int))),
                decreases 6 - x,
            {
                let c = match self.0[y][x] {
                    BoardCellState::Empty => '.',
                    BoardCellState::White => 'W',
                    BoardCellState::Black => 'B',
                };
                let ghost mid = result@;
                push_char(&mut result, c);
                proof {
                    assert(Seq::new((x + 1) as nat, |i: int| cell_char(self.cell(i, y as int))) =~= Seq::new(x as nat, |i: int| cell_char(self.cell(i, y as int))).push(c));
                }
                x += 1;
            }
            push_char(&mut result, '\n');
            proof {
                assert(result@ =~= block_header() + self.rows_text(y + 1));
            }
            y += 1;
        }
        result
    }
}

/// The column step of direction `d`, one of the eight neighbours:
/// 0 NW, 1 N, 2 NE, 3 W, 4 E, 5 SW, 6 S, 7 SE.
pub open spec fn dir_dx(d: int) -> int {
    if d == 0 || d == 3 || d == 5 {
        -1
    } else if d == 1 || d == 6 {
        0
    } else {
        1
    }
}

/// The row step of direction `d` (see `dir_dx`).
pub open spec fn dir_dy(d: int) -> int {
    if d < 3 {
        -1
    } else if d < 5 {
        0
    } else {
        1
    }
}

impl Board {
    /// Number of consecutive disks of `p`'s opponent met when walking from
    /// `(cx, cy)` in steps of `(dx, dy)`, looking at no more than `fuel` cells.
    pub open spec fn run_len(self, cx: int, cy: int, dx: int, dy: int, p: PlayerColor, fuel: nat) -> nat
        decreases fuel,
    {
        if fuel == 0 {
            0
        } else if in_bounds(cx, cy) && self.cell(cx, cy) == p.other().disk() {
            1 + self.run_len(cx + dx, cy + dy, dx, dy, p, (fuel - 1) as nat)
        } else {
            0
        }
    }

    /// Whether the walk from `(cx, cy)` in steps of `(dx, dy)` passes only
    /// opponent disks before it meets a disk of `p`, within `fuel` cells.
    pub open spec fn closes(self, cx: int, cy: int, dx: int, dy: int, p: PlayerColor, fuel: nat) -> bool
        decreases fuel,
    {
        if fuel == 0 {
            false
        } else if !in_bounds(cx, cy) {
            false
        } else if self.cell(cx, cy) == p.disk() {
            true
        } else if self.cell(cx, cy) == p.other().disk() {
            self.closes(cx + dx, cy + dy, dx, dy, p, (fuel - 1) as nat)
        } else {
            false
        }
    }

    /// Number of opponent disks that a disk of `p` placed at `(x, y)`
    /// encloses in the direction `(dx, dy)`: the run of opponent disks next to
    /// `(x, y)` if a disk of `p` ends it, else none. A line from a cell has
    /// at most five more cells, so five steps see all of it.
    pub open spec fn flip_count(self, x: int, y: int, dx: int, dy: int, p: PlayerColor) -> nat {
        if self.closes(x + dx, y + dy, dx, dy, p, 5) {
            self.run_len(x + dx, y + dy, dx, dy, p, 5)
        } else {
            0
        }
    }

    /// Whether a move of `p` at `(x, y)` encloses some opponent disk in one
    /// of the first `n` directions.
    pub open spec fn captures_upto(self, x: int, y: int, p: PlayerColor, n: nat) -> bool
        decreases n,
    {
        if n == 0 {
            false
        } else {
            self.captures_upto(x, y, p, (n - 1) as nat)
                || self.flip_count(x, y, dir_dx(n - 1), dir_dy(n - 1), p) > 0
        }
    }

    /// Whether a move of `p` at `(x, y)` turns the disk at `(tx, ty)`,
    /// counting the first `n` directions only.
    pub open spec fn flipped_upto(self, x: int, y: int, p: PlayerColor, n: nat, tx: int, ty: int) -> bool
        decreases n,
    {
        if n == 0 {
            false
        } else {
            self.flipped_upto(x, y, p, (n - 1) as nat, tx, ty) || on_segment(
                x + dir_dx(n - 1),
                y + dir_dy(n - 1),
                dir_dx(n - 1),
                dir_dy(n - 1),
                self.flip_count(x, y, dir_dx(n - 1), dir_dy(n - 1), p),
                tx,
                ty,
            )
        }
    }

    /// The rule of Reversi: `p` may place a disk on an empty cell that
    /// encloses at least one line of opponent disks.
    pub open spec fn is_legal_move(self, x: int, y: int, p: PlayerColor) -> bool {
        &&& in_bounds(x, y)
        &&& self.cell(x, y) == BoardCellState::Empty
        &&& self.captures_upto(x, y, p, 8)
    }

    /// The cell `(tx, ty)` after `p` places a disk at `(x, y)`: the placed
    /// disk and every enclosed opponent disk become `p`'s; the rest stays.
    pub open spec fn cell_after_move(self, x: int, y: int, p: PlayerColor, tx: int, ty: int) -> BoardCellState {
        if (tx == x && ty == y) || self.flipped_upto(x, y, p, 8, tx, ty) {
            p.disk()
        } else {
            self.cell(tx, ty)
        }
    }

    /// Whether `r` is the board after `p` places a disk at `(x, y)`.
    pub open spec fn is_after_move(self, x: int, y: int, p: PlayerColor, r: Board) -> bool {
        forall|ty: int, tx: int| in_bounds(tx, ty) ==> #[trigger] r.cell(tx, ty) == self.cell_after_move(x, y, p, tx, ty)
    }

    /// The board after `p` places a disk at `(x, y)`, or `None` where the
    /// move is not legal.
    pub open spec fn after_move(self, x: int, y: int, p: PlayerColor) -> Option<Board> {
        if self.is_legal_move(x, y, p) {
            Some(choose|r: Board| self.is_after_move(x, y, p, r))
        } else {
            None
        }
    }

    /// The legal moves of `p` among the first `n` cells in row-major order.
    pub open spec fn legal_moves_upto(self, p: PlayerColor, n: int) -> Seq<CellCoord>
        decreases n,
    {
        if n <= 0 {
            seq![]
        } else {
            self.legal_moves_upto(p, n - 1) + if self.is_legal_move((n - 1) % 6, (n - 1) / 6, p) {
                seq![CellCoord::at((n - 1) % 6, (n - 1) / 6)]
            } else {
                seq![]
            }
        }
    }

    /// The legal moves of `p`, in row-major order.
    pub open spec fn legal_moves(self, p: PlayerColor) -> Seq<CellCoord> {
        self.legal_moves_upto(p, 36)
    }
}

/// Whether `(tx, ty)` is one of the `k` cells from `(sx, sy)` on in steps
/// of `(dx, dy)`.
pub open spec fn on_segment(sx: int, sy: int, dx: int, dy: int, k: nat, tx: int, ty: int) -> bool
    decreases k,
{
    if k == 0 {
        false
    } else {
        (sx == tx && sy == ty) || on_segment(sx + dx, sy + dy, dx, dy, (k - 1) as nat, tx, ty)
    }
}

/// Cells of a segment lie on the side of its start that its direction
/// points to.
pub proof fn lemma_segment_direction(sx: int, sy: int, dx: int, dy: int, k: nat, tx: int, ty: int)
    requires
        on_segment(sx, sy, dx, dy, k, tx, ty),
        -1 <= dx <= 1,
        -1 <= dy <= 1,
    ensures
        dx > 0 ==> tx >= sx,
        dx < 0 ==> tx <= sx,
        dy > 0 ==> ty >= sy,
        dy < 0 ==> ty <= sy,
        dx == 0 ==> tx == sx,
        dy == 0 ==> ty == sy,
    decreases k,
{
    if !(sx == tx && sy == ty) {
        lemma_segment_direction(sx + dx, sy + dy, dx, dy, (k - 1) as nat, tx, ty);
    }
}

/// The column and row steps of direction `d`.
fn direction(d: usize) -> (step: (i8, i8))
    requires
        d < 8,
    ensures
        step.0 == dir_dx(d as int),
        step.1 == dir_dy(d as int),
{
    if d == 0 {
        (-1, -1)
    } else if d == 1 {
        (0, -1)
    } else if d == 2 {
        (1, -1)
    } else if d == 3 {
        (-1, 0)
    } else if d == 4 {
        (1, 0)
    } else if d == 5 {
        (-1, 1)
    } else if d == 6 {
        (0, 1)
    } else {
        (1, 1)
    }
}

impl Board {
    /// Number of opponent disks that a disk of `p` at `(x, y)` would enclose
    /// in direction `(dx, dy)`.
    fn flips_in_direction(&self, x: i8, y: i8, dx: i8, dy: i8, p: PlayerColor) -> (n: u8)
        requires
            in_bounds(x as int, y as int),
            -1 <= dx <= 1,
            -1 <= dy <= 1,
        ensures
            n == self.flip_count(x as int, y as int, dx as int, dy as int, p),
            n <= 5,
    {
        let opp = match p {
            PlayerColor::Black => BoardCellState::White,
            PlayerColor::White => BoardCellState::Black,
        };
        let mine = match p {
            PlayerColor::Black => BoardCellState::Black,
            PlayerColor::White => BoardCellState::White,
        };
        let mut cx: i8 = x + dx;
        let mut cy: i8 = y + dy;
        let mut steps: u8 = 0;
        let ghost sx = cx as int;
        let ghost sy = cy as int;
        while steps < 5 && 0 <= cx && cx < 6 && 0 <= cy && cy < 6 && self.0[cy as usize][cx as usize] == opp
            invariant
                -1 <= dx <= 1,
                -1 <= dy <= 1,
                -1 <= cx <= 6,
                -1 <= cy <= 6,
                steps <= 5,
                opp == p.other().disk(),
                self.run_len(sx, sy, dx as int, dy as int, p, 5) == steps + self.run_len(cx as int, cy as int, dx as int, dy as int, p, (5 - steps) as nat),
                self.closes(sx, sy, dx as int, dy as int, p, 5) == self.closes(cx as int, cy as int, dx as int, dy as int, p, (5 - steps) as nat),
            decreases 5 - steps,
        {
            cx = cx + dx;
            cy = cy + dy;
            steps = steps + 1;
        }
        if steps < 5 && 0 <= cx && cx < 6 && 0 <= cy && cy < 6 && self.0[cy as usize][cx as usize] == mine {
            steps
        } else {
            0
        }
    }

    /// Whether some direction encloses opponent disks for a disk of `p` at
    /// `(x, y)`.
    fn encloses_any(&self, x: i8, y: i8, p: PlayerColor) -> (any: bool)
        requires
            in_bounds(x as int, y as int),
        ensures
            any == self.captures_upto(x as int, y as int, p, 8),
    {
        let mut d: usize = 0;
        while d < 8
            invariant
                d <= 8,
                in_bounds(x as int, y as int),
                !self.captures_upto(x as int, y as int, p, d as nat),
            decreases 8 - d,
        {
            let (dx, dy) = direction(d);
            if self.flips_in_direction(x, y, dx, dy, p) > 0 {
                assert(self.captures_upto(x as int, y as int, p, (d + 1) as nat));
                proof {
                    self.lemma_captures_monotone(x as int, y as int, p, (d + 1) as nat, 8);
                }
                return true;
            }
            d += 1;
        }
        false
    }

    /// Capturing in the first `m` directions implies capturing in the first
    /// `n >= m`.
    proof fn lemma_captures_monotone(self, x: int, y: int, p: PlayerColor, m: nat, n: nat)
        requires
            m <= n,
            self.captures_upto(x, y, p, m),
        ensures
            self.captures_upto(x, y, p, n),
        decreases n - m,
    {
        if m < n {
            self.lemma_captures_monotone(x, y, p, m, (n - 1) as nat);
        }
    }

    /// Whether `p` may place a disk at `(x, y)`.
    fn is_legal(&self, x: u8, y: u8, p: PlayerColor) -> (legal: bool)
        requires
            x < 6,
            y < 6,
        ensures
            legal == self.is_legal_move(x as int, y as int, p),
    {
        if self.0[y as usize][x as usize] != BoardCellState::Empty {
            return false;
        }
        self.encloses_any(x as i8, y as i8, p)
    }
}

impl Board {
    /// Turns to `p`'s color the `m` disks that a disk of `p` at `(x, y)`
    /// encloses in direction `(dx, dy)`, reading the line from `self` and
    /// writing into `arr`.
    fn flip_line(&self, arr: &mut [[BoardCellState; 6]; 6], x: i8, y: i8, dx: i8, dy: i8, p: PlayerColor, m: u8)
        requires
            in_bounds(x as int, y as int),
            -1 <= dx <= 1,
            -1 <= dy <= 1,
            dx != 0 || dy != 0,
            m == self.flip_count(x as int, y as int, dx as int, dy as int, p),
            m <= 5,
        ensures
            forall|ty: int, tx: int|
                in_bounds(tx, ty) ==> #[trigger] final(arr)[ty][tx] == if on_segment(
                    x + dx,
                    y + dy,
                    dx as int,
                    dy as int,
                    m as nat,
                    tx,
                    ty,
                ) {
                    p.disk()
                } else {
                    old(arr)[ty][tx]
                },
    {
        let disk = match p {
            PlayerColor::Black => BoardCellState::Black,
            PlayerColor::White => BoardCellState::White,
        };
        let ghost sx = x + dx;
        let ghost sy = y + dy;
        let ghost orig = *arr;
        let mut cx: i8 = x + dx;
        let mut cy: i8 = y + dy;
        let mut k: u8 = 0;
        proof {
            if m > 0 {
                assert(self.closes(sx, sy, dx as int, dy as int, p, 5));
            }
        }
        while k < m
            invariant
                -1 <= dx <= 1,
                -1 <= dy <= 1,
                dx != 0 || dy != 0,
                k <= m,
                m <= 5,
                disk == p.disk(),
                -1 <= cx <= 6,
                -1 <= cy <= 6,
                m - k <= self.run_len(cx as int, cy as int, dx as int, dy as int, p, (5 - k) as nat),
                forall|ty: int, tx: int|
                    on_segment(cx as int, cy as int, dx as int, dy as int, (m - k) as nat, tx, ty)
                        ==> on_segment(sx, sy, dx as int, dy as int, m as nat, tx, ty),
                forall|ty: int, tx: int|
                    in_bounds(tx, ty) ==> #[trigger] arr[ty][tx] == if on_segment(sx, sy, dx as int, dy as int, m as nat, tx, ty)
                        && !on_segment(cx as int, cy as int, dx as int, dy as int, (m - k) as nat, tx, ty) {
                        p.disk()
                    } else {
                        orig[ty][tx]
                    },
            decreases m - k,
        {
            let ghost before = *arr;
            let ghost (px, py) = (cx as int, cy as int);
            assert(in_bounds(cx as int, cy as int));
            let mut row = arr[cy as usize];
            row[cx as usize] = disk;
            arr[cy as usize] = row;
            cx = cx + dx;
            cy = cy + dy;
            k = k + 1;
            proof {
                assert forall|ty: int, tx: int|
                    on_segment(cx as int, cy as int, dx as int, dy as int, (m - k) as nat, tx, ty)
                        implies on_segment(sx, sy, dx as int, dy as int, m as nat, tx, ty) by {
                    assert(on_segment(px, py, dx as int, dy as int, (m - k + 1) as nat, tx, ty));
                }
                assert forall|ty: int, tx: int| in_bounds(tx, ty) implies #[trigger] arr[ty][tx] == if on_segment(sx, sy, dx as int, dy as int, m as nat, tx, ty)
                        && !on_segment(cx as int, cy as int, dx as int, dy as int, (m - k) as nat, tx, ty) {
                        p.disk()
                    } else {
                        orig[ty][tx]
                    } by {
                    assert(on_segment(px, py, dx as int, dy as int, (m - k + 1) as nat, px, py));
                    if tx == px && ty == py {
                        if on_segment(cx as int, cy as int, dx as int, dy as int, (m - k) as nat, tx, ty) {
                            lemma_segment_direction(cx as int, cy as int, dx as int, dy as int, (m - k) as nat, tx, ty);
                        }
                    } else {
                        assert(arr[ty][tx] == before[ty][tx]);
                    }
                }
            }
        }
    }

    /// The board after `player` places a disk in column `column`, row `row`,
    /// turning every opponent disk that the move encloses in a straight line;
    /// `None` where the cell is off the board, occupied, or encloses nothing.
    pub fn place_disk(&self, column: u8, row: u8, player: &PlayerColor) -> (next: Option<Board>)
        ensures
            next == self.after_move(column as int, row as int, *player),
            next matches Some(r) ==> self.is_after_move(column as int, row as int, *player, r),
    {
        if column >= 6 || row >= 6 {
            return None;
        }
        if !self.is_legal(column, row, *player) {
            return None;
        }
        let x = column as i8;
        let y = row as i8;
        let mut arr = self.0;
        let mut d: usize = 0;
        while d < 8
            invariant
                d <= 8,
                in_bounds(x as int, y as int),
                forall|ty: int, tx: int|
                    in_bounds(tx, ty) ==> #[trigger] arr[ty][tx] == if self.flipped_upto(x as int, y as int, *player, d as nat, tx, ty) {
                        player.disk()
                    } else {
                        self.cell(tx, ty)
                    },
            decreases 8 - d,
        {
            let (dx, dy) = direction(d);
            let m = self.flips_in_direction(x, y, dx, dy, *player);
            self.flip_line(&mut arr, x, y, dx, dy, *player, m);
            d += 1;
        }
        let disk = match player {
            PlayerColor::Black => BoardCellState::Black,
            PlayerColor::White => BoardCellState::White,
        };
        let mut r = arr[row as usize];
        r[column as usize] = disk;
        arr[row as usize] = r;
        let next = Board(arr);
        proof {
            assert(self.is_after_move(x as int, y as int, *player, next));
            self.lemma_after_move_unique(x as int, y as int, *player, next);
        }
        Some(next)
    }

    /// The board after a legal move is the one that `is_after_move` describes.
    pub proof fn lemma_after_move_unique(self, x: int, y: int, p: PlayerColor, r: Board)
        requires
            self.is_legal_move(x, y, p),
            self.is_after_move(x, y, p, r),
        ensures
            self.after_move(x, y, p) == Some(r),
    {
        let c = choose|r: Board| self.is_after_move(x, y, p, r);
        assert forall|ty: int, tx: int| in_bounds(tx, ty) implies #[trigger] c.cell(tx, ty) == r.cell(tx, ty) by {
            assert(c.cell(tx, ty) == self.cell_after_move(x, y, p, tx, ty));
            assert(r.cell(tx, ty) == self.cell_after_move(x, y, p, tx, ty));
        }
        Board::lemma_ext_equal(c, r);
    }

    /// The cells where `player` may place a disk, in row-major order.
    pub fn moves_available(&self, player: &PlayerColor) -> (moves: Vec<CellCoord>)
        ensures
            moves@ == self.legal_moves(*player),
    {
        let mut moves: Vec<CellCoord> = Vec::new();
        let mut y: u8 = 0;
        while y < 6
            invariant
                y <= 6,
                moves@ == self.legal_moves_upto(*player, y * 6),
            decreases 6 - y,
        {
            let mut x: u8 = 0;
            while x < 6
                invariant
                    y < 6,
                    x <= 6,
                    moves@ == self.legal_moves_upto(*player, y * 6 + x),
                decreases 6 - x,
            {
                assert((y * 6 + x) as int % 6 == x as int && (y * 6 + x) as int / 6 == y as int);
                if self.is_legal(x, y, *player) {
                    moves.push(CellCoord::new(x, y));
                }
                x += 1;
            }
            y += 1;
        }
        moves
    }
}

/// Where a player may place disks, indexed `[row][column]`: `true` where a
/// placement is allowed.
#[derive(Clone, Copy, Debug)]
pub struct PlacementMask(pub [[bool; 6]; 6]);

impl PlacementMask {
    /// Whether the mask allows a placement in column `x`, row `y`.
    pub open spec fn allows(self, x: int, y: int) -> bool {
        self.0[y][x]
    }

    /// Whether the mask allows a placement on `cell`.
    pub open spec fn allows_cell(self, cell: CellCoord) -> bool {
        self.allows(cell.x(), cell.y())
    }

    /// Whether the mask allows a placement in column `x`, row `y`.
    pub fn can_place(&self, x: usize, y: usize) -> (allowed: bool)
        requires
            x < 6,
            y < 6,
        ensures
            allowed == self.allows(x as int, y as int),
    {
        self.0[y][x]
    }

    /// Whether the mask allows a placement on `cell`.
    pub fn can_place_at_cell(&self, cell: CellCoord) -> (allowed: bool)
        ensures
            allowed == self.allows_cell(cell),
    {
        let x = *cell.column();
        let y = *cell.row();
        self.0[y as usize][x as usize]
    }

    /// The mask as a 36-bit set: bit `y * 6 + x` is set exactly where the
    /// mask allows column `x`, row `y`.
    pub(crate) fn to_bits(&self) -> (bits: u64)
        ensures
            forall|i: int| 0 <= i < 36 ==> (bit(bits, i) <==> self.allows(i % 6, i / 6)),
            within_board_bits(bits),
    {
        let mut bits: u64 = 0;
        proof {
            assert(0u64 < (1u64 << 0u64)) by (bit_vector);
            assert forall|i: int| 0 <= i < 64 implies !bit(bits, i) by {
                lemma_bit_of_zero(i as u64);
            }
        }
        let mut y: usize = 0;
        while y < 6
            invariant
                y <= 6,
                forall|i: int| 0 <= i < 64 ==> (bit(bits, i) <==> (i < y * 6 && self.allows(i % 6, i / 6))),
                bits < (1u64 << ((y * 6) as u64)),
            decreases 6 - y,
        {
            let mut x: usize = 0;
            while x < 6
                invariant
                    y < 6,
                    x <= 6,
                    forall|i: int| 0 <= i < 64 ==> (bit(bits, i) <==> (i < y * 6 + x && self.allows(i % 6, i / 6))),
                    bits < (1u64 << ((y * 6 + x) as u64)),
                decreases 6 - x,
            {
                let pos = (y * 6 + x) as u64;
                assert(pos as int % 6 == x as int && pos as int / 6 == y as int);
                let ghost old_bits = bits;
                let allowed = self.can_place(x, y);
                if allowed {
                    bits = bits | (1u64 << pos);
                }
                proof {
                    lemma_or_shl_bound(old_bits, pos);
                    assert forall|i: int| 0 <= i < 64 implies (bit(bits, i) <==> (i < y * 6 + x + 1 && self.allows(i % 6, i / 6))) by {
                        lemma_bit_of_or_shl(old_bits, pos, i as u64);
                        assert(bit(old_bits, i) <==> (i < y * 6 + x && self.allows(i % 6, i / 6)));
                        if i == pos {
                            assert(self.allows(i % 6, i / 6) == allowed);
                        }
                        if !allowed {
                            assert(bits == old_bits);
                        }
                    }
                }
                x += 1;
            }
            y += 1;
        }
        proof {
            assert((1u64 << 36u64) == 0x1000000000u64) by (bit_vector);
        }
        bits
    }
}

/// The cell that `Board::from_bitboards` makes of bit `i` of the two words:
/// black where the black word has it, else white where the white word has
/// it, else empty.
pub open spec fn cell_from_bits(black: u64, white: u64, i: int) -> BoardCellState {
    if bit(black, i) {
        BoardCellState::Black
    } else if bit(white, i) {
        BoardCellState::White
    } else {
        BoardCellState::Empty
    }
}

impl Board {
    /// Whether this board is the one that `from_bitboards(black, white)` makes.
    pub open spec fn decodes(self, black: u64, white: u64) -> bool {
        forall|i: int| 0 <= i < 36 ==> #[trigger] self.cell(i % 6, i / 6) == cell_from_bits(black, white, i)
    }

    /// Whether `bb` is the bitboard pair of this board, as `to_bitboards`
    /// makes it.
    pub open spec fn has_bitboards(self, bb: BitBoard) -> bool {
        &&& self.marks(bb.white, BoardCellState::White)
        &&& self.marks(bb.black, BoardCellState::Black)
        &&& within_board_bits(bb.white)
        &&& within_board_bits(bb.black)
    }

    /// Whether bit `y * 6 + x` of `v` is set exactly where column `x`, row
    /// `y` holds `state`, for the 36 cells.
    pub open spec fn marks(self, v: u64, state: BoardCellState) -> bool {
        forall|i: int| 0 <= i < 36 ==> (bit(v, i) <==> self.cell(i % 6, i / 6) == state)
    }

    /// The board whose cell `y * 6 + x` is black where bit `y * 6 + x` of
    /// `black` is set, else white where that bit of `white` is set, else
    /// empty. Bits at 36 and above are ignored.
    pub fn from_bitboards(black: u64, white: u64) -> (board: Board)
        ensures
            board.decodes(black, white),
    {
        let mut arr = [[BoardCellState::Empty; 6]; 6];
        let mut y: usize = 0;
        while y < 6
            invariant
                y <= 6,
                forall|j: int, x: int| 0 <= j < y && 0 <= x < 6 ==> #[trigger] arr[j][x] == cell_from_bits(black, white, j * 6 + x),
            decreases 6 - y,
        {
            let mut row = [BoardCellState::Empty; 6];
            let mut x: usize = 0;
            while x < 6
                invariant
                    y < 6,
                    x <= 6,
                    forall|i: int| 0 <= i < x ==> #[trigger] row[i] == cell_from_bits(black, white, y * 6 + i),
                decreases 6 - x,
            {
                let pos = (y * 6 + x) as u64;
                row[x] = if (black >> pos) & 1u64 == 1u64 {
                    BoardCellState::Black
                } else if (white >> pos) & 1u64 == 1u64 {
                    BoardCellState::White
                } else {
                    BoardCellState::Empty
                };
                x += 1;
            }
            arr[y] = row;
            y += 1;
        }
        let board = Board(arr);
        proof {
            assert forall|i: int| 0 <= i < 36 implies #[trigger] board.cell(i % 6, i / 6) == cell_from_bits(black, white, i) by {
                assert(i == (i / 6) * 6 + i % 6);
                assert(arr[i / 6][i % 6] == cell_from_bits(black, white, (i / 6) * 6 + i % 6));
            }
        }
        board
    }
}

/// Decoding the bitboard pair of a board gives the board back.
pub proof fn lemma_bitboards_round_trip(board: Board, bb: BitBoard, decoded: Board)
    requires
        board.has_bitboards(bb),
        decoded.decodes(bb.black, bb.white),
    ensures
        decoded == board,
{
    assert forall|y: int, x: int| in_bounds(x, y) implies #[trigger] decoded.cell(x, y) == board.cell(x, y) by {
        let i = y * 6 + x;
        assert(i % 6 == x && i / 6 == y);
        assert(decoded.cell(i % 6, i / 6) == cell_from_bits(bb.black, bb.white, i));
        assert(bit(bb.white, i) <==> board.cell(i % 6, i / 6) == BoardCellState::White);
        assert(bit(bb.black, i) <==> board.cell(i % 6, i / 6) == BoardCellState::Black);
    }
    Board::lemma_ext_equal(decoded, board);
}

/// Two boards with the same bitboard pair are the same board.
pub proof fn lemma_same_bitboards(a: Board, b: Board, bb: BitBoard)
    requires
        a.has_bitboards(bb),
        b.has_bitboards(bb),
    ensures
        a == b,
{
    assert forall|y: int, x: int| in_bounds(x, y) implies #[trigger] a.cell(x, y) == b.cell(x, y) by {
        let i = y * 6 + x;
        assert(i % 6 == x && i / 6 == y);
        assert(bit(bb.white, i) <==> a.cell(i % 6, i / 6) == BoardCellState::White);
        assert(bit(bb.white, i) <==> b.cell(i % 6, i / 6) == BoardCellState::White);
        assert(bit(bb.black, i) <==> a.cell(i % 6, i / 6) == BoardCellState::Black);
        assert(bit(bb.black, i) <==> b.cell(i % 6, i / 6) == BoardCellState::Black);
    }
    Board::lemma_ext_equal(a, b);
}

/// `8` to the power `n`.
pub open spec fn pow8(n: nat) -> int
    decreases n,
{
    if n == 0 {
        1
    } else {
        8 * pow8((n - 1) as nat)
    }
}

/// The number that the octal digits `s` (most significant first) write.
pub open spec fn octal_value(s: Seq<char>) -> int
    decreases s.len(),
{
    if s.len() == 0 {
        0
    } else {
        octal_value(s.drop_last()) * 8 + (s.last() as int - 48)
    }
}

/// Whether `s` is the text form of a 36-bit set: twelve octal digits, most
/// significant first.
pub open spec fn is_octal_text(s: Seq<char>) -> bool {
    &&& s.len() == 12
    &&& forall|i: int| 0 <= i < 12 ==> '0' <= #[trigger] s[i] <= '7'
}

/// Whether every character of `s` is an octal digit.
pub open spec fn octal_digits(s: Seq<char>) -> bool {
    forall|i: int| 0 <= i < s.len() ==> '0' <= #[trigger] s[i] <= '7'
}

proof fn lemma_pow8_positive(n: nat)
    ensures
        pow8(n) >= 1,
    decreases n,
{
    if n > 0 {
        lemma_pow8_positive((n - 1) as nat);
    }
}

/// Octal digits write a number below `8` to the power of their count.
proof fn lemma_octal_value_bound(s: Seq<char>)
    requires
        octal_digits(s),
    ensures
        0 <= octal_value(s) < pow8(s.len()),
    decreases s.len(),
{
    if s.len() > 0 {
        assert(octal_digits(s.drop_last())) by {
            assert forall|i: int| 0 <= i < s.drop_last().len() implies '0' <= #[trigger] s.drop_last()[i] <= '7' by {
                assert(s.drop_last()[i] == s[i]);
            }
        }
        lemma_octal_value_bound(s.drop_last());
        assert('0' <= s[s.len() - 1] <= '7');
    }
}

/// A digit in front adds its value times `8` to the power of the rest's
/// length.
proof fn lemma_octal_value_prepend(c: char, s: Seq<char>)
    ensures
        octal_value(seq![c] + s) == (c as int - 48) * pow8(s.len()) + octal_value(s),
    decreases s.len(),
{
    if s.len() == 0 {
        assert((seq![c] + s).drop_last() =~= Seq::<char>::empty());
        assert(octal_value(Seq::<char>::empty()) == 0);
        assert((seq![c] + s).last() == c);
        assert(octal_value(seq![c] + s) == c as int - 48);
        assert(pow8(0) == 1);
    } else {
        let t = seq![c] + s;
        assert(t.drop_last() =~= seq![c] + s.drop_last());
        assert(t.last() == s.last());
        lemma_octal_value_prepend(c, s.drop_last());
        let a = c as int - 48;
        let p = pow8((s.len() - 1) as nat);
        assert((a * p + octal_value(s.drop_last())) * 8 == a * (8 * p) + octal_value(s.drop_last()) * 8) by (nonlinear_arith);
        assert(pow8(s.len()) == 8 * p);
        assert(octal_value(t) == octal_value(t.drop_last()) * 8 + (t.last() as int - 48));
        assert(octal_value(s) == octal_value(s.drop_last()) * 8 + (s.last() as int - 48));
    }
}

/// Two octal texts with the same value are the same text.
pub proof fn lemma_octal_text_unique(a: Seq<char>, b: Seq<char>)
    requires
        octal_digits(a),
        octal_digits(b),
        a.len() == b.len(),
        octal_value(a) == octal_value(b),
    ensures
        a == b,
    decreases a.len(),
{
    if a.len() > 0 {
        assert(octal_digits(a.drop_last())) by {
            assert forall|i: int| 0 <= i < a.drop_last().len() implies '0' <= #[trigger] a.drop_last()[i] <= '7' by {
                assert(a.drop_last()[i] == a[i]);
            }
        }
        assert(octal_digits(b.drop_last())) by {
            assert forall|i: int| 0 <= i < b.drop_last().len() implies '0' <= #[trigger] b.drop_last()[i] <= '7' by {
                assert(b.drop_last()[i] == b[i]);
            }
        }
        let x = octal_value(a.drop_last());
        let y = octal_value(b.drop_last());
        let d = a.last() as int - 48;
        let e = b.last() as int - 48;
        assert('0' <= a[a.len() - 1] <= '7' && '0' <= b[b.len() - 1] <= '7');
        assert(d == e && x == y) by (nonlinear_arith)
            requires
                x * 8 + d == y * 8 + e,
                0 <= d < 8,
                0 <= e < 8,
        ;
        lemma_octal_text_unique(a.drop_last(), b.drop_last());
        assert(a =~= a.drop_last().push(a.last()));
        assert(b =~= b.drop_last().push(b.last()));
    }
}

/// Reads twelve octal digits, most significant first, as a 36-bit set.
fn parse_octal(s: &str) -> (value: u64)
    requires
        is_octal_text(s@),
    ensures
        value == octal_value(s@),
        value < pow8(12),
{
    let mut acc: u64 = 0;
    let mut i: usize = 0;
    proof {
        reveal_with_fuel(pow8, 13);
        assert(pow8(12) == 0x1000000000);
    }
    while i < 12
        invariant
            i <= 12,
            is_octal_text(s@),
            acc == octal_value(s@.take(i as int)),
            0 <= acc < pow8(i as nat),
            pow8(12) == 0x1000000000,
        decreases 12 - i,
    {
        let c = s.get_char(i);
        assert('0' <= c <= '7');
        let d = (c as u32 - 48) as u64;
        proof {
            assert(s@.take(i + 1).drop_last() =~= s@.take(i as int));
            assert(s@.take(i + 1).last() == c);
            lemma_pow8_monotone(i as nat, 12);
            assert(pow8((i + 1) as nat) == 8 * pow8(i as nat));
        }
        acc = acc * 8 + d;
        i += 1;
    }
    proof {
        assert(s@.take(12) =~= s@);
    }
    acc
}

proof fn lemma_pow8_monotone(m: nat, n: nat)
    requires
        m <= n,
    ensures
        pow8(m) <= pow8(n),
    decreases n - m,
{
    if m < n {
        lemma_pow8_monotone(m, (n - 1) as nat);
        lemma_pow8_positive((n - 1) as nat);
    }
}

/// Writes a 36-bit set as twelve octal digits, most significant first.
fn octal_text(value: u64) -> (text: String)
    requires
        value < pow8(12),
    ensures
        is_octal_text(text@),
        octal_value(text@) == value,
{
    let mut digits = ['0'; 12];
    let mut rest: u64 = value;
    let mut i: usize = 0;
    while i < 12
        invariant
            i <= 12,
            rest < pow8((12 - i) as nat),
            value == rest * pow8(i as nat) + octal_value(digits@.subrange(12 - i, 12)),
            octal_digits(digits@.subrange(12 - i, 12)),
            forall|j: int| 0 <= j < 12 ==> '0' <= #[trigger] digits@[j] <= '7',
        decreases 12 - i,
    {
        let d = rest % 8;
        let c = ((48 + d) as u8) as char;
        let ghost tail = digits@.subrange(12 - i, 12);
        let ghost q = rest / 8;
        digits[11 - i] = c;
        proof {
            assert(digits@.subrange(12 - i - 1, 12) =~= seq![c] + tail);
            lemma_octal_value_prepend(c, tail);
            assert(tail.len() == i);
            assert(rest == 8 * q + d);
            assert(rest * pow8(i as nat) == q * pow8((i + 1) as nat) + d * pow8(i as nat)) by (nonlinear_arith)
                requires
                    rest == 8 * q + d,
                    pow8((i + 1) as nat) == 8 * pow8(i as nat),
            ;
            assert(q < pow8((12 - i - 1) as nat)) by (nonlinear_arith)
                requires
                    rest == 8 * q + d,
                    0 <= d < 8,
                    rest < pow8((12 - i) as nat),
                    pow8((12 - i) as nat) == 8 * pow8((12 - i - 1) as nat),
            ;
            assert(octal_digits(seq![c] + tail)) by {
                assert forall|j: int| 0 <= j < (seq![c] + tail).len() implies '0' <= #[trigger] (seq![c] + tail)[j] <= '7' by {
                    if j > 0 {
                        assert((seq![c] + tail)[j] == tail[j - 1]);
                    }
                }
            }
        }
        rest = rest / 8;
        i += 1;
    }
    proof {
        assert(digits@.subrange(0, 12) =~= digits@);
        assert(pow8(0) == 1);
    }
    let mut text = String::new();
    let mut k: usize = 0;
    while k < 12
        invariant
            k <= 12,
            text@ == digits@.take(k as int),
        decreases 12 - k,
    {
        push_char(&mut text, digits[k]);
        proof {
            assert(digits@.take(k + 1) =~= digits@.take(k as int).push(digits@[k as int]));
        }
        k += 1;
    }
    proof {
        assert(digits@.take(12) =~= digits@);
    }
    text
}

impl PlacementMask {
    /// Whether bit `y * 6 + x` of `v` is set exactly where the mask allows
    /// column `x`, row `y`, for the 36 cells.
    pub open spec fn has_bits(self, v: u64) -> bool {
        forall|i: int| 0 <= i < 36 ==> (bit(v, i) <==> self.allows(i % 6, i / 6))
    }

    /// The mask written as a 36-bit set (see `to_octal_string`).
    pub fn from_octal_string(octal: &str) -> (mask: PlacementMask)
        requires
            is_octal_text(octal@),
        ensures
            mask.has_bits(octal_value(octal@) as u64),
    {
        let v = parse_octal(octal);
        let mut arr = [[false; 6]; 6];
        let mut y: usize = 0;
        while y < 6
            invariant
                y <= 6,
                forall|j: int, x: int| 0 <= j < y && 0 <= x < 6 ==> (#[trigger] arr[j][x] <==> bit(v, j * 6 + x)),
            decreases 6 - y,
        {
            let mut row = [false; 6];
            let mut x: usize = 0;
            while x < 6
                invariant
                    y < 6,
                    x <= 6,
                    forall|i: int| 0 <= i < x ==> (#[trigger] row[i] <==> bit(v, y * 6 + i)),
                decreases 6 - x,
            {
                let pos = (y * 6 + x) as u64;
                row[x] = (v >> pos) & 1u64 == 1u64;
                x += 1;
            }
            arr[y] = row;
            y += 1;
        }
        let mask = PlacementMask(arr);
        proof {
            assert forall|i: int| 0 <= i < 36 implies (bit(v, i) <==> mask.allows(i % 6, i / 6)) by {
                assert(i == (i / 6) * 6 + i % 6);
                assert(arr[i / 6][i % 6] <==> bit(v, (i / 6) * 6 + i % 6));
            }
        }
        mask
    }

    /// The mask as twelve octal digits, most significant first, of the
    /// 36-bit set whose bit `y * 6 + x` is set where column `x`, row `y` is
    /// allowed.
    pub fn to_octal_string(&self) -> (octal: String)
        ensures
            is_octal_text(octal@),
            self.has_bits(octal_value(octal@) as u64),
    {
        let bits = self.to_bits();
        proof {
            reveal_with_fuel(pow8, 13);
        }
        octal_text(bits)
    }

    /// The mask as text: the header of `Board::to_string_block`, then one
    /// line per row: the row index from 0, a space, a bar, and `O` where a
    /// placement is allowed or `.` where it is not.
    pub fn to_string_block(&self) -> (text: String)
        ensures
            text@ == block_header() + self.rows_text(6),
    {
        let mut result = String::new();
        result.append("   ABCDEF\n");
        result.append("   ------\n");
        proof {
            reveal_strlit("   ABCDEF\n");
            reveal_strlit("   ------\n");
            assert(result@ =~= block_header() + self.rows_text(0));
        }
        let mut y: usize = 0;
        while y < 6
            invariant
                y <= 6,
                result@ == block_header() + self.rows_text(y as int),
            decreases 6 - y,
        {
            let ghost before = result@;
            push_char(&mut result, ((48u8 + y as u8) as char));
            push_char(&mut result, ' ');
            push_char(&mut result, '|');
            let mut x: usize = 0;
            while x < 6
                invariant
                    y < 6,
                    x <= 6,
                    result@ == before + seq![digit_char(y as int), ' ', '|'] + Seq::new(x as nat, |i: int| mask_char(self.allows(i, y as int))),
                decreases 6 - x,
            {
                let c = if self.0[y][x] {
                    'O'
                } else {
                    '.'
                };
                push_char(&mut result, c);
                proof {
                    assert(Seq::new((x + 1) as nat, |i: int| mask_char(self.allows(i, y as int))) =~= Seq::new(x as nat, |i: int| mask_char(self.allows(i, y as int))).push(c));
                }
                x += 1;
            }
            push_char(&mut result, '\n');
            proof {
                assert(result@ =~= block_header() + self.rows_text(y + 1));
            }
            y += 1;
        }
        result
    }

    /// The text of row `y` in `to_string_block`.
    pub open spec fn row_text(self, y: int) -> Seq<char> {
        seq![digit_char(y), ' ', '|'] + Seq::new(6, |x: int| mask_char(self.allows(x, y))) + seq!['\n']
    }

    /// The text of the first `n` rows in `to_string_block`.
    pub open spec fn rows_text(self, n: int) -> Seq<char>
        decreases n,
    {
        if n <= 0 {
            seq![]
        } else {
            self.rows_text(n - 1) + self.row_text(n - 1)
        }
    }
}

/// The character that `PlacementMask::to_string_block` prints for a cell.
pub open spec fn mask_char(allowed: bool) -> char {
    if allowed {
        'O'
    } else {
        '.'
    }
}

impl Board {
    /// The board whose white disks are the 36-bit set `white_octal` and
    /// whose black disks are the 36-bit set `black_octal`, each written as
    /// twelve octal digits (see `from_bitboards`).
    pub fn from_octal_strings(white_octal: &str, black_octal: &str) -> (board: Board)
        requires
            is_octal_text(white_octal@),
            is_octal_text(black_octal@),
        ensures
            board.decodes(octal_value(black_octal@) as u64, octal_value(white_octal@) as u64),
    {
        let white = parse_octal(white_octal);
        let black = parse_octal(black_octal);
        Board::from_bitboards(black, white)
    }

    /// The white disks as twelve octal digits of the 36-bit set whose bit
    /// `y * 6 + x` is set where column `x`, row `y` holds a white disk.
    pub fn white_to_octal_string(&self) -> (octal: String)
        ensures
            is_octal_text(octal@),
            self.marks(octal_value(octal@) as u64, BoardCellState::White),
    {
        let bb = self.to_bitboards();
        proof {
            reveal_with_fuel(pow8, 13);
        }
        octal_text(bb.white)
    }

    /// The black disks as twelve octal digits (see `white_to_octal_string`).
    pub fn black_to_octal_string(&self) -> (octal: String)
        ensures
            is_octal_text(octal@),
            self.marks(octal_value(octal@) as u64, BoardCellState::Black),
    {
        let bb = self.to_bitboards();
        proof {
            reveal_with_fuel(pow8, 13);
        }
        octal_text(bb.black)
    }
}

/// Writing a board's disks as octal text and reading them back gives the
/// board back.
pub proof fn lemma_octal_round_trip(board: Board, white_octal: Seq<char>, black_octal: Seq<char>, decoded: Board)
    requires
        is_octal_text(white_octal),
        is_octal_text(black_octal),
        board.marks(octal_value(white_octal) as u64, BoardCellState::White),
        board.marks(octal_value(black_octal) as u64, BoardCellState::Black),
        decoded.decodes(octal_value(black_octal) as u64, octal_value(white_octal) as u64),
    ensures
        decoded == board,
{
    lemma_octal_value_bound(white_octal);
    lemma_octal_value_bound(black_octal);
    reveal_with_fuel(pow8, 13);
    let bb = BitBoard { white: octal_value(white_octal) as u64, black: octal_value(black_octal) as u64 };
    lemma_bitboards_round_trip(board, bb, decoded);
}

/// The cells of a run of opponent disks are on the board and hold
/// opponent disks.
pub proof fn lemma_run_cells(b: Board, sx: int, sy: int, dx: int, dy: int, p: PlayerColor, fuel: nat, k: nat, tx: int, ty: int)
    requires
        k <= b.run_len(sx, sy, dx, dy, p, fuel),
        on_segment(sx, sy, dx, dy, k, tx, ty),
    ensures
        in_bounds(tx, ty),
        b.cell(tx, ty) == p.other().disk(),
    decreases k,
{
    if !(sx == tx && sy == ty) {
        lemma_run_cells(b, sx + dx, sy + dy, dx, dy, p, (fuel - 1) as nat, (k - 1) as nat, tx, ty);
    }
}

impl Board {
    /// Every disk that a move turns held an opponent disk before.
    pub proof fn lemma_flipped_were_opponent(self, x: int, y: int, p: PlayerColor, n: nat, tx: int, ty: int)
        requires
            self.flipped_upto(x, y, p, n, tx, ty),
        ensures
            in_bounds(tx, ty),
            self.cell(tx, ty) == p.other().disk(),
        decreases n,
    {
        if self.flipped_upto(x, y, p, (n - 1) as nat, tx, ty) {
            self.lemma_flipped_were_opponent(x, y, p, (n - 1) as nat, tx, ty);
        } else {
            let d = n - 1;
            let fc = self.flip_count(x, y, dir_dx(d), dir_dy(d), p);
            lemma_run_cells(self, x + dir_dx(d), y + dir_dy(d), dir_dx(d), dir_dy(d), p, 5, fc, tx, ty);
        }
    }

    /// Counting filled cells of two boards that differ in emptiness only at
    /// cell `pos`, which is empty on the first and filled on the second.
    proof fn lemma_filled_upto_one_more(self, r: Board, pos: int, n: int)
        requires
            0 <= pos < 36,
            0 <= n <= 36,
            self.cell(pos % 6, pos / 6) == BoardCellState::Empty,
            r.cell(pos % 6, pos / 6) != BoardCellState::Empty,
            forall|i: int| 0 <= i < 36 && i != pos ==>
                (#[trigger] r.cell(i % 6, i / 6) != BoardCellState::Empty) == (self.cell(i % 6, i / 6) != BoardCellState::Empty),
        ensures
            r.filled_upto(n) == self.filled_upto(n) + if pos < n { 1int } else { 0int },
        decreases n,
    {
        if n > 0 {
            self.lemma_filled_upto_one_more(r, pos, n - 1);
            if n - 1 != pos {
                assert((r.cell((n - 1) % 6, (n - 1) / 6) != BoardCellState::Empty) == (self.cell((n - 1) % 6, (n - 1) / 6) != BoardCellState::Empty));
            }
        }
    }

    /// A legal move adds exactly one disk to the board: it fills an empty
    /// cell and only turns disks that were already there.
    pub proof fn lemma_move_adds_one_disk(self, x: int, y: int, p: PlayerColor, r: Board)
        requires
            self.is_legal_move(x, y, p),
            self.is_after_move(x, y, p, r),
        ensures
            r.filled_count() == self.filled_count() + 1,
    {
        let pos = y * 6 + x;
        assert(pos % 6 == x && pos / 6 == y);
        assert(r.cell(x, y) == p.disk());
        assert forall|i: int| 0 <= i < 36 && i != pos implies
            (#[trigger] r.cell(i % 6, i / 6) != BoardCellState::Empty) == (self.cell(i % 6, i / 6) != BoardCellState::Empty) by {
            let tx = i % 6;
            let ty = i / 6;
            assert(i == ty * 6 + tx);
            assert(in_bounds(tx, ty));
            assert(r.cell(tx, ty) == self.cell_after_move(x, y, p, tx, ty));
            if self.flipped_upto(x, y, p, 8, tx, ty) {
                self.lemma_flipped_were_opponent(x, y, p, 8, tx, ty);
            }
        }
        self.lemma_filled_upto_one_more(r, pos, 36);
    }

    /// The board after a legal move is one that `is_after_move` describes.
    pub proof fn lemma_after_move_exists(self, x: int, y: int, p: PlayerColor)
        requires
            self.is_legal_move(x, y, p),
        ensures
            self.after_move(x, y, p) matches Some(r) && self.is_after_move(x, y, p, r),
    {
        let f = |tx: int, ty: int| self.cell_after_move(x, y, p, tx, ty);
        let r = Board([
            [f(0, 0), f(1, 0), f(2, 0), f(3, 0), f(4, 0), f(5, 0)],
            [f(0, 1), f(1, 1), f(2, 1), f(3, 1), f(4, 1), f(5, 1)],
            [f(0, 2), f(1, 2), f(2, 2), f(3, 2), f(4, 2), f(5, 2)],
            [f(0, 3), f(1, 3), f(2, 3), f(3, 3), f(4, 3), f(5, 3)],
            [f(0, 4), f(1, 4), f(2, 4), f(3, 4), f(4, 4), f(5, 4)],
            [f(0, 5), f(1, 5), f(2, 5), f(3, 5), f(4, 5), f(5, 5)],
        ]);
        assert(self.is_after_move(x, y, p, r));
    }
}

impl Board {
    /// Every cell in the list of legal moves is a legal move.
    pub proof fn lemma_legal_moves_are_legal(self, p: PlayerColor, n: int, c: CellCoord)
        requires
            0 <= n <= 36,
            self.legal_moves_upto(p, n).contains(c),
        ensures
            self.is_legal_move(c.x(), c.y(), p),
        decreases n,
    {
        if n > 0 {
            let prev = self.legal_moves_upto(p, n - 1);
            let i = n - 1;
            if prev.contains(c) {
                self.lemma_legal_moves_are_legal(p, n - 1, c);
            } else {
                let k = choose|k: int| 0 <= k < self.legal_moves_upto(p, n).len() && self.legal_moves_upto(p, n)[k] == c;
                assert(k >= prev.len()) by {
                    if k < prev.len() {
                        assert(prev[k] == c);
                    }
                }
                CellCoord::lemma_at(i % 6, i / 6);
            }
        }
    }
}

impl Board {
    /// Every legal move among the first `n` cells is in the list of legal
    /// moves.
    pub proof fn lemma_legal_moves_complete(self, p: PlayerColor, n: int, x: int, y: int)
        requires
            self.is_legal_move(x, y, p),
            y * 6 + x < n <= 36,
        ensures
            self.legal_moves_upto(p, n).contains(CellCoord::at(x, y)),
        decreases n,
    {
        let i = n - 1;
        let prev = self.legal_moves_upto(p, i);
        if i == y * 6 + x {
            assert(i % 6 == x && i / 6 == y);
            let list = self.legal_moves_upto(p, n);
            assert(list[prev.len() as int] == CellCoord::at(x, y));
        } else {
            self.lemma_legal_moves_complete(p, i, x, y);
            let k = choose|k: int| 0 <= k < prev.len() && prev[k] == CellCoord::at(x, y);
            assert(self.legal_moves_upto(p, n)[k] == prev[k]);
        }
    }
}

/// Number of the bits `0..n` of `v` that are set.
pub open spec fn popcount_upto(v: u64, n: int) -> int
    decreases n,
{
    if n <= 0 {
        0
    } else {
        popcount_upto(v, n - 1) + if bit(v, n - 1) {
            1int
        } else {
            0int
        }
    }
}

/// The disks counted on a board's bitboards are its filled cells.
pub proof fn lemma_popcount_is_filled(board: Board, bb: BitBoard, n: int)
    requires
        board.has_bitboards(bb),
        0 <= n <= 36,
    ensures
        popcount_upto(bb.black, n) + popcount_upto(bb.white, n) == board.filled_upto(n),
    decreases n,
{
    if n > 0 {
        lemma_popcount_is_filled(board, bb, n - 1);
        let i = n - 1;
        assert(bit(bb.white, i) <==> board.cell(i % 6, i / 6) == BoardCellState::White);
        assert(bit(bb.black, i) <==> board.cell(i % 6, i / 6) == BoardCellState::Black);
    }
}

/// Bit `i` of the union of two words is set where either word has it.
proof fn lemma_bit_of_union(w: u64, b: u64, i: u64)
    requires
        i < 64,
    ensures
        bit(w | b, i as int) == (bit(w, i as int) || bit(b, i as int)),
{
    assert(((w | b) >> i) & 1u64 == 1u64 <==> ((w >> i) & 1u64 == 1u64 || (b >> i) & 1u64 == 1u64)) by (bit_vector)
        requires
            i < 64,
    ;
}

/// A word within the board has no bit at 36 or above.
proof fn lemma_high_bit_clear(v: u64, i: u64)
    requires
        within_board_bits(v),
        36 <= i < 64,
    ensures
        !bit(v, i as int),
{
    assert((v >> i) & 1u64 != 1u64) by (bit_vector)
        requires
            v < 0x1000000000u64,
            36 <= i < 64,
    ;
}

/// The set bits among the first `n` of the union of a board's two
/// bitboards are its filled cells among the first `min(n, 36)`.
proof fn lemma_union_popcount_upto(board: Board, bb: BitBoard, n: int)
    requires
        board.has_bitboards(bb),
        0 <= n <= 64,
    ensures
        popcount_upto(bb.white | bb.black, n) == board.filled_upto(if n < 36 { n } else { 36 }),
    decreases n,
{
    if n > 0 {
        lemma_union_popcount_upto(board, bb, n - 1);
        let i = n - 1;
        lemma_bit_of_union(bb.white, bb.black, i as u64);
        if i < 36 {
            assert(bit(bb.white, i) <==> board.cell(i % 6, i / 6) == BoardCellState::White);
            assert(bit(bb.black, i) <==> board.cell(i % 6, i / 6) == BoardCellState::Black);
        } else {
            lemma_high_bit_clear(bb.white, i as u64);
            lemma_high_bit_clear(bb.black, i as u64);
        }
    }
}

/// The union of a board's two bitboards has as many of its 64 bits set
/// (what `u64::count_ones` counts) as the board has filled cells.
pub proof fn lemma_bitboards_count_filled(board: Board, bb: BitBoard)
    requires
        board.has_bitboards(bb),
    ensures
        popcount_upto(bb.white | bb.black, 64) == board.filled_count(),
{
    lemma_union_popcount_upto(board, bb, 64);
}

/// The character that a printed board shows for a cell: `B` for a black
/// disk, `W` for a white one, `.` for an empty cell.
pub open spec fn shown_as(state: BoardCellState) -> char {
    if state == BoardCellState::Black {
        'B'
    } else if state == BoardCellState::White {
        'W'
    } else {
        '.'
    }
}

impl Board {
    /// The rows printed so far take ten characters each, and row `y` stands
    /// at `10 * y`.
    proof fn lemma_rows_text_at(self, n: int, y: int, k: int)
        requires
            0 <= y < n <= 6,
            0 <= k < 10,
        ensures
            self.rows_text(n).len() == 10 * n,
            self.rows_text(n)[10 * y + k] == self.row_text(y)[k],
        decreases n,
    {
        self.lemma_rows_text_len(n);
        if y < n - 1 {
            self.lemma_rows_text_at(n - 1, y, k);
        } else {
            self.lemma_rows_text_len(n - 1);
        }
    }

    /// The first `n` rows take ten characters each.
    proof fn lemma_rows_text_len(self, n: int)
        requires
            0 <= n <= 6,
        ensures
            self.rows_text(n).len() == 10 * n,
        decreases n,
    {
        if n > 0 {
            self.lemma_rows_text_len(n - 1);
        }
    }
}

/// The text of `Board::to_string_block` (`block_header()` followed by
/// `rows_text(6)`) is eight lines of ten characters: the column letters,
/// a rule, then for each row `y` of the board (`board.0[y]`) its number,
/// a blank, a bar and, in column `x`, the character of the cell
/// `board.0[y][x]`.
pub proof fn lemma_block_shows_cells(board: Board, y: int, x: int)
    requires
        0 <= y < 6,
        0 <= x < 6,
    ensures
        (block_header() + board.rows_text(6)).len() == 80,
        (block_header() + board.rows_text(6))[3 + x] == (65 + x) as char,
        (block_header() + board.rows_text(6))[10 * (y + 2)] == (48 + y) as char,
        (block_header() + board.rows_text(6))[10 * (y + 2) + 2] == '|',
        (block_header() + board.rows_text(6))[10 * (y + 2) + 3 + x] == shown_as(board.0[y][x]),
        (block_header() + board.rows_text(6))[10 * (y + 2) + 9] == '\n',
{
    board.lemma_rows_text_at(6, y, 0);
    board.lemma_rows_text_at(6, y, 2);
    board.lemma_rows_text_at(6, y, 3 + x);
    board.lemma_rows_text_at(6, y, 9);
    let text = block_header() + board.rows_text(6);
    assert(text[10 * (y + 2) + 3 + x] == board.rows_text(6)[10 * y + 3 + x]);
    assert(board.row_text(y)[3 + x] == cell_char(board.cell(x, y)));
}

impl PlacementMask {
    /// The first `n` rows take ten characters each, and row `y` stands at
    /// `10 * y`.
    proof fn lemma_mask_rows_text_at(self, n: int, y: int, k: int)
        requires
            0 <= y < n <= 6,
            0 <= k < 10,
        ensures
            self.rows_text(n).len() == 10 * n,
            self.rows_text(n)[10 * y + k] == self.row_text(y)[k],
        decreases n,
    {
        self.lemma_mask_rows_text_len(n);
        if y < n - 1 {
            self.lemma_mask_rows_text_at(n - 1, y, k);
        } else {
            self.lemma_mask_rows_text_len(n - 1);
        }
    }

    /// The first `n` rows take ten characters each.
    proof fn lemma_mask_rows_text_len(self, n: int)
        requires
            0 <= n <= 6,
        ensures
            self.rows_text(n).len() == 10 * n,
        decreases n,
    {
        if n > 0 {
            self.lemma_mask_rows_text_len(n - 1);
        }
    }
}

/// The text of `PlacementMask::to_string_block` is eight lines of ten
/// characters: the column letters, a rule, then for each row `y` its
/// number, a blank, a bar and, in column `x`, `O` where the mask allows a
/// placement on `mask.0[y][x]` and `.` where it does not.
pub proof fn lemma_mask_block_shows_cells(mask: PlacementMask, y: int, x: int)
    requires
        0 <= y < 6,
        0 <= x < 6,
    ensures
        (block_header() + mask.rows_text(6)).len() == 80,
        (block_header() + mask.rows_text(6))[3 + x] == (65 + x) as char,
        (block_header() + mask.rows_text(6))[10 * (y + 2)] == (48 + y) as char,
        (block_header() + mask.rows_text(6))[10 * (y + 2) + 3 + x] == if mask.0[y][x] { 'O' } else { '.' },
        (block_header() + mask.rows_text(6))[10 * (y + 2) + 9] == '\n',
{
    mask.lemma_mask_rows_text_at(6, y, 0);
    mask.lemma_mask_rows_text_at(6, y, 3 + x);
    mask.lemma_mask_rows_text_at(6, y, 9);
    assert(mask.row_text(y)[3 + x] == mask_char(mask.allows(x, y)));
}

impl PartialEq for Board {
    fn eq(&self, other: &Self) -> (equal: bool) {
        let mut y: usize = 0;
        while y < 6
            invariant
                y <= 6,
                forall|j: int, x: int| 0 <= j < y && 0 <= x < 6 ==> self.0[j][x] == other.0[j][x],
            decreases 6 - y,
        {
            let mut x: usize = 0;
            while x < 6
                invariant
                    y < 6,
                    x <= 6,
                    forall|j: int, i: int| 0 <= j < y && 0 <= i < 6 ==> self.0[j][i] == other.0[j][i],
                    forall|i: int| 0 <= i < x ==> self.0[y as int][i] == other.0[y as int][i],
                decreases 6 - x,
            {
                if self.0[y][x] != other.0[y][x] {
                    return false;
                }
                x += 1;
            }
            y += 1;
        }
        proof {
            Board::lemma_ext_equal(*self, *other);
        }
        true
    }
}

impl vstd::std_specs::cmp::PartialEqSpecImpl for Board {
    open spec fn obeys_eq_spec() -> bool {
        true
    }

    open spec fn eq_spec(&self, other: &Board) -> bool {
        *self == *other
    }
}

impl Board {
    /// Two boards with the same content in every cell are the same board.
    pub proof fn lemma_ext_equal(a: Board, b: Board)
        requires
            forall|y: int, x: int| in_bounds(x, y) ==> #[trigger] a.cell(x, y) == b.cell(x, y),
        ensures
            a == b,
    {
        broadcast use vstd::array::group_array_axioms;

        assert forall|y: int| 0 <= y < 6 implies a.0[y] == b.0[y] by {
            assert forall|x: int| 0 <= x < 6 implies a.0[y][x] == b.0[y][x] by {
                assert(in_bounds(x, y));
                assert(a.cell(x, y) == b.cell(x, y));
            }
            assert(a.0[y] =~= b.0[y]);
        }
        assert(a.0 =~= b.0);
    }
}

} // verus!
