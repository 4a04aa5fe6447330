use reversi_path_finder::board::example_boards::{reachable_1_step, unreachable_broken};
use reversi_path_finder::board::{Board, BoardCellState, CellCoord, PlacementMask, PlayerColor};
use reversi_path_finder::game::initial_board;

fn cell(x: u8, y: u8) -> CellCoord {
    CellCoord::new(x, y)
}

#[test]
fn from_012_array_maps_codes() {
    let mut arr = [[0u8; 6]; 6];
    arr[0][1] = 1;
    arr[5][4] = 2;
    let board = Board::from_012_array(arr);
    assert!(board.0[0][1] == BoardCellState::White);
    assert!(board.0[5][4] == BoardCellState::Black);
    assert!(board.0[0][0] == BoardCellState::Empty);
}

#[test]
fn initial_bitboards() {
    let bb = initial_board().to_bitboards();
    // C3 = bit 14 and D4 = bit 21 are white; D3 = bit 15 and C4 = bit 20 are black.
    assert_eq!(bb.white, (1u64 << 14) | (1u64 << 21));
    assert_eq!(bb.black, (1u64 << 15) | (1u64 << 20));
}

#[test]
fn bitboards_round_trip() {
    let board = reachable_1_step();
    let bb = board.to_bitboards();
    assert!(Board::from_bitboards(bb.black, bb.white) == board);
}

#[test]
fn from_bitboards_prefers_black_on_overlap() {
    let board = Board::from_bitboards(1, 1);
    assert!(board.0[0][0] == BoardCellState::Black);
}

#[test]
fn filled_cells() {
    assert_eq!(initial_board().filled_cells_count(), 4);
    assert_eq!(reachable_1_step().filled_cells_count(), 5);
    assert_eq!(unreachable_broken().filled_cells_count(), 12);
}

#[test]
fn string_block_of_initial_board() {
    let expected = "   ABCDEF\n   ------\n0 |......\n1 |......\n2 |..WB..\n3 |..BW..\n4 |......\n5 |......\n";
    assert_eq!(initial_board().to_string_block(), expected);
}

#[test]
fn black_opening_moves() {
    let moves = initial_board().moves_available(&PlayerColor::Black);
    let names: Vec<String> = moves.iter().map(|c| c.to_string()).collect();
    assert_eq!(names, vec!["C2", "B3", "E4", "D5"]);
}

#[test]
fn white_opening_moves() {
    let moves = initial_board().moves_available(&PlayerColor::White);
    let names: Vec<String> = moves.iter().map(|c| c.to_string()).collect();
    assert_eq!(names, vec!["D2", "E3", "B4", "C5"]);
}

#[test]
fn place_disk_flips_enclosed_disk() {
    let next = initial_board().place_disk(1, 2, &PlayerColor::Black).unwrap();
    assert!(next == reachable_1_step());
}

#[test]
fn place_disk_refuses_illegal_moves() {
    let board = initial_board();
    // Occupied cell.
    assert!(board.place_disk(2, 2, &PlayerColor::Black).is_none());
    // Empty cell that encloses nothing.
    assert!(board.place_disk(0, 0, &PlayerColor::Black).is_none());
    // Off the board.
    assert!(board.place_disk(6, 0, &PlayerColor::Black).is_none());
}

#[test]
fn place_disk_flips_in_several_directions() {
    // Black at A1 and C1 and A3, white at B1, A2, B2; black plays... at C3 flips B2 (diagonal).
    let board = Board::from_012_array([
        [2, 1, 0, 0, 0, 0],
        [1, 1, 0, 0, 0, 0],
        [0, 0, 0, 0, 0, 0],
        [0, 0, 0, 0, 0, 0],
        [0, 0, 0, 0, 0, 0],
        [0, 0, 0, 0, 0, 0],
    ]);
    // C1 (2, 0): west run B1 then A1 black -> flips B1.
    let next = board.place_disk(2, 0, &PlayerColor::Black).unwrap();
    assert!(next.0[0][1] == BoardCellState::Black);
    assert!(next.0[1][1] == BoardCellState::White);
    // C3 (2, 2): north-west run B2 then A1 black -> flips B2 only.
    let next = board.place_disk(2, 2, &PlayerColor::Black).unwrap();
    assert!(next.0[1][1] == BoardCellState::Black);
    assert!(next.0[0][1] == BoardCellState::White);
    assert!(next.0[1][0] == BoardCellState::White);
    assert_eq!(next.filled_cells_count(), board.filled_cells_count() + 1);
}

#[test]
fn opponent_swaps_players() {
    assert!(PlayerColor::Black.opponent() == PlayerColor::White);
    assert!(PlayerColor::White.opponent() == PlayerColor::Black);
}

#[test]
fn cell_coordinates() {
    let c = cell(4, 5);
    assert_eq!(*c.column(), 4);
    assert_eq!(*c.row(), 5);
    assert_eq!(c.to_string(), "E6");
}

#[test]
fn placement_mask_queries() {
    let mut allowed = [[false; 6]; 6];
    allowed[3][1] = true;
    let mask = PlacementMask(allowed);
    assert!(mask.can_place(1, 3));
    assert!(!mask.can_place(3, 1));
    assert!(mask.can_place_at_cell(cell(1, 3)));
    assert!(!mask.can_place_at_cell(cell(0, 0)));
}

#[test]
fn mask_octal_round_trip() {
    let mask = PlacementMask::from_octal_string("737777737752");
    assert_eq!(mask.to_octal_string(), "737777737752");
    // 0o...752 ends in binary 111 101 010: bit 0 clear, bit 1 set.
    assert!(!mask.can_place(0, 0));
    assert!(mask.can_place(1, 0));
}

#[test]
fn board_octal_round_trip() {
    let board = reachable_1_step();
    let white = board.white_to_octal_string();
    let black = board.black_to_octal_string();
    assert_eq!(white, "000010000000"); // D4 = bit 21 = 8^7
    assert!(Board::from_octal_strings(&white, &black) == board);
}

#[test]
fn mask_string_block() {
    let mut allowed = [[false; 6]; 6];
    allowed[0][0] = true;
    let text = PlacementMask(allowed).to_string_block();
    assert!(text.starts_with("   ABCDEF\n   ------\n0 |O.....\n1 |......\n"));
}
