use twenty48::board::BOARD_COLS;
use twenty48::board::BOARD_ROWS;
use twenty48::board::Board;
use twenty48::board::Coord;
use twenty48::board::HISTORY_SIZE;
use twenty48::cell::Cell;
use twenty48::movement::Direction;
use twenty48::movement::Move;
use twenty48::parse_input;

type BoardCell = Option<Cell>;

fn snapshot(board: &Board) -> Vec<Vec<BoardCell>> {
    let mut rows = Vec::new();
    for row in 0..BOARD_ROWS {
        let mut cells = Vec::new();
        for col in 0..BOARD_COLS {
            cells.push(board.cell_at(row, col));
        }
        rows.push(cells);
    }
    rows
}

/// Reducing an all-absent line reports no change, whatever its length.
#[test]
fn reduce_empty_line_of_any_length() {
    for len in 0..8 {
        let line: Vec<BoardCell> = vec![None; len];
        assert!(Board::shift_group(line).is_none());
    }
}

/// A lone tile away from the target edge shifts to the start.
#[test]
fn reduce_single_tile_moves_to_edge() {
    let line = vec![None, None, Some(Cell::new(2)), None];
    let result = Board::shift_group(line).unwrap();
    assert_eq!(
        vec![Some(Cell::new(2)), None, None, None],
        result
    );
}

/// Two equal tiles at the far end merge into one doubled tile at the start.
#[test]
fn reduce_merges_trailing_pair() {
    let line = vec![None, None, Some(Cell::new(2)), Some(Cell::new(2))];
    let result = Board::shift_group(line).unwrap();
    assert_eq!(
        vec![Some(Cell::new(4)), None, None, None],
        result
    );
}

/// Two equal tiles separated by a gap still merge.
#[test]
fn reduce_merges_separated_pair() {
    let line = vec![None, Some(Cell::new(2)), None, Some(Cell::new(2))];
    let result = Board::shift_group(line).unwrap();
    assert_eq!(
        vec![Some(Cell::new(4)), None, None, None],
        result
    );
}

/// The largest representable tiles do not merge: doubling would overflow,
/// so the reducer's precondition excludes them, but growing one reports the
/// overflow as a plain error.
#[test]
fn grow_max_tile_fails_without_mutation() {
    const MSB: usize = 1 << (usize::BITS - 1);
    let mut cell = Cell(MSB);
    cell.grow().unwrap_err();
    assert_eq!(MSB, cell.value());
}

/// A shift that changes the grid records the prior grid, and the following
/// undo restores it slot for slot.
#[test]
fn undo_restores_pre_shift_grid() {
    let mut board = Board::default();
    board.spawn_at(Coord(0, BOARD_COLS - 1)).unwrap();
    let before = snapshot(&board);

    board.movement(Move::Shift(Direction::Left)).unwrap();
    assert!(board.cell_at(0, 0).is_some());
    assert_eq!(HISTORY_SIZE, board.history_len());

    board.movement(Move::Undo).unwrap();
    assert_eq!(before, snapshot(&board));
    assert_eq!(0, board.history_len());
}

/// The history never outgrows its bound, and undoing more often than the
/// bound allows fails once the history is exhausted.
#[test]
fn history_is_bounded() {
    let mut board = Board::default();
    board.spawn_at(Coord(BOARD_ROWS - 1, BOARD_COLS - 1)).unwrap();

    board.movement(Move::Shift(Direction::Left)).unwrap();
    assert!(board.history_len() <= HISTORY_SIZE);
    board.movement(Move::Shift(Direction::Right)).unwrap();
    assert!(board.history_len() <= HISTORY_SIZE);
    assert_eq!(HISTORY_SIZE, board.history_len());

    board.movement(Move::Undo).unwrap();
    board.movement(Move::Undo).unwrap_err();
}

/// A shift that cannot move or merge any tile fails, leaves the grid slot
/// for slot as it was, and records nothing to undo.
#[test]
fn invalid_shift_leaves_board_untouched() {
    let mut board = Board::default();
    board.spawn_at(Coord(0, 0)).unwrap();
    let before = snapshot(&board);

    board.movement(Move::Shift(Direction::Left)).unwrap_err();
    assert_eq!(before, snapshot(&board));
    assert_eq!(0, board.history_len());

    board.movement(Move::Undo).unwrap_err();
    assert_eq!(before, snapshot(&board));
}

/// Shifting up compacts every column toward the top row.
#[test]
fn shift_up_compacts_columns() {
    let mut board = Board::default();
    board.spawn_at(Coord(BOARD_ROWS - 1, 2)).unwrap();
    let moved = board.cell_at(BOARD_ROWS - 1, 2);

    board.movement(Move::Shift(Direction::Up)).unwrap();
    assert_eq!(moved, board.cell_at(0, 2));
}

/// Shifting down compacts every column toward the bottom row.
#[test]
fn shift_down_compacts_columns() {
    let mut board = Board::default();
    board.spawn_at(Coord(0, 1)).unwrap();
    let moved = board.cell_at(0, 1);

    board.movement(Move::Shift(Direction::Down)).unwrap();
    assert_eq!(moved, board.cell_at(BOARD_ROWS - 1, 1));
}

/// Each known one-character command maps to its move, and anything else is
/// rejected.
#[test]
fn parse_input_maps_commands() {
    assert_eq!(Ok(Move::Shift(Direction::Up)), parse_input("w"));
    assert_eq!(Ok(Move::Shift(Direction::Left)), parse_input("a"));
    assert_eq!(Ok(Move::Shift(Direction::Down)), parse_input("s"));
    assert_eq!(Ok(Move::Shift(Direction::Right)), parse_input("d"));
    assert_eq!(Ok(Move::Undo), parse_input("u"));
    assert_eq!(Err(()), parse_input("x"));
    assert_eq!(Err(()), parse_input(""));
    assert_eq!(Err(()), parse_input("wa"));
}

/// An empty board prints as four rows of four zeros.
#[test]
fn render_empty_board() {
    let board = Board::default();
    assert_eq!("0 0 0 0\n0 0 0 0\n0 0 0 0\n0 0 0 0", board.to_string());
}

/// A spawned tile shows its decimal value in the rendering.
#[test]
fn render_spawned_tile() {
    let mut board = Board::default();
    board.spawn_at(Coord(0, 0)).unwrap();
    let value = board.cell_at(0, 0).unwrap().value();
    let rendering = board.to_string();
    let first = rendering.split(' ').next().unwrap();
    assert_eq!(value.to_string(), first);
}

/// Boards built through the library's own operations pass the well-formedness
/// and overflow checks.
#[test]
fn new_board_is_well_formed() {
    let board = Board::new();
    assert!(board.is_well_formed());
    assert!(board.shift_fits(Direction::Left));
    assert!(board.shift_fits(Direction::Right));
    assert!(board.shift_fits(Direction::Up));
    assert!(board.shift_fits(Direction::Down));
}

/// Spawning at an occupied slot fails and changes nothing.
#[test]
fn spawn_at_occupied_slot_fails() {
    let mut board = Board::default();
    board.spawn_at(Coord(1, 1)).unwrap();
    let before = snapshot(&board);
    board.spawn_at(Coord(1, 1)).unwrap_err();
    assert_eq!(before, snapshot(&board));
}

/// A run of spawns stops at the first occupied target, keeping the earlier
/// spawns.
#[test]
fn spawn_at_many_stops_at_occupied() {
    let mut board = Board::default();
    board
        .spawn_at_many(vec![Coord(0, 0), Coord(0, 1)])
        .unwrap();
    board
        .spawn_at_many(vec![Coord(0, 2), Coord(0, 1), Coord(0, 3)])
        .unwrap_err();
    assert!(board.cell_at(0, 2).is_some());
    assert!(board.cell_at(0, 3).is_none());
}
