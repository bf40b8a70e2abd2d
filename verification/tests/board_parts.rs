use twenty48::board::BOARD_COLS;
use twenty48::board::BOARD_ROWS;
use twenty48::board::Board;
use twenty48::board::Coord;
use twenty48::board::HISTORY_SIZE;
use twenty48::cell::Cell;

type BoardCell = Option<Cell>;

/// Affirm that the default board is instantiated with `None` in each cell.
#[test]
fn grid() {
    let board = Board::default();
    let mut all_none = true;
    for row in 0..BOARD_ROWS {
        for col in 0..BOARD_COLS {
            if board.cell_at(row, col).is_some() {
                all_none = false;
            }
        }
    }
    assert!(all_none);
}

/// Affirm that the default board is instantiated with an empty history, whose
/// length stays within the bound `HISTORY_SIZE`.
#[test]
fn history() {
    let board = Board::default();
    assert!(board.history_len() <= HISTORY_SIZE);
    assert_eq!(0, board.history_len());
}

/// Affirm that `Board::get_cells_by_emptiness()` functions properly on an empty board state.
#[test]
fn board_empty() {
    let board = Board::default();
    let vec = board.get_cells_by_emptiness(true);
    assert_eq!(BOARD_ROWS.checked_mul(BOARD_COLS).unwrap(), vec.len());
}

/// Affirm that `Board::get_mergeable` reports no mergeable pairs for an empty collection.
#[test]
fn get_mergeable_input_0_0_0_0() {
    let cells = vec![None, None, None, None];
    assert!(Board::get_mergeable(&cells).is_empty());
}

/// Affirm that `Board::get_mergeable` reports no mergeable pairs for a singular non-empty cell.
#[test]
fn get_mergeable_input_0_0_0_2() {
    let cells = vec![None, None, None, Some(Cell::new(2))];
    assert!(Board::get_mergeable(&cells).is_empty());
}

/// Affirm that `Board::get_mergeable` reports one mergeable pair for a contiguous pair of
/// same-valued cells.
#[test]
fn input_0_0_2_2() {
    let expect = vec![(2, 3)];
    let cells = vec![None, None, Some(Cell::new(2)), Some(Cell::new(2))];
    assert_eq!(expect, Board::get_mergeable(&cells));
}

/// Affirm that `Board::get_mergeable` reports one mergeable pair for a pair of same-valued cells
/// separated by an empty cell.
#[test]
fn input_0_2_0_2() {
    let expect = vec![(1, 3)];
    let cells = vec![None, Some(Cell::new(2)), None, Some(Cell::new(2))];
    assert_eq!(expect, Board::get_mergeable(&cells));
}

/// Affirm that `Board::get_mergeable` reports no mergeable pairs for a pair of same-valued cells
/// separated by a cell of dissimilar value to the others.
#[test]
fn input_0_2_4_2() {
    let cells = vec![
        None,
        Some(Cell::new(2)),
        Some(Cell::new(4)),
        Some(Cell::new(2)),
    ];
    assert!(Board::get_mergeable(&cells).is_empty());
}

#[test]
fn get_mergeable_input_2_2_2_2() {
    let expect = vec![(0, 1), (2, 3)];
    let cells = vec![
        Some(Cell::new(2)),
        Some(Cell::new(2)),
        Some(Cell::new(2)),
        Some(Cell::new(2)),
    ];
    assert_eq!(expect, Board::get_mergeable(&cells));
}

#[test]
fn get_mergeable_input_2_4_4_2() {
    let expect = vec![(1, 2)];
    let cells = vec![
        Some(Cell::new(2)),
        Some(Cell::new(4)),
        Some(Cell::new(4)),
        Some(Cell::new(2)),
    ];
    assert_eq!(expect, Board::get_mergeable(&cells));
}

/// Affirm that `Board::new()` initializes a board with all cells having `value = 0`,
/// except one.
#[test]
fn new_test_new() {
    let board = Board::new();
    let mut found = false;
    for row in 0..BOARD_ROWS {
        for col in 0..BOARD_COLS {
            let is_empty = board.cell_at(row, col).is_none();
            assert!(is_empty || !found);
            found = found || !is_empty;
        }
    }
}

/// Affirm that `Board::shift_group` will return nothing on a group of empty cells.
#[test]
fn shift_group_input_0_0_0_0() {
    let row: Vec<BoardCell> = vec![None, None, None, None];
    let result = Board::shift_group(row);
    assert!(result.is_none());
}

/// Affirm that `Board::shift_group` will return nothing on a group containing one cell positioned at the
/// start.
#[test]
fn input_2_0_0_0() {
    let row = vec![Some(Cell::new(2)), None, None, None];
    let result = Board::shift_group(row);
    assert!(result.is_none());
}

/// Affirm that `Board::shift_group` will successfully shift a group containing one cell positioned at
/// the end to the start.
#[test]
fn shift_group_input_0_0_0_2() {
    let row = vec![None, None, None, Some(Cell::new(2))];
    let result = Board::shift_group(row).unwrap();
    let mut iter = result.iter();
    assert_eq!(Some(Cell::new(2)), *iter.next().unwrap());
    assert!(iter.all(|cell| cell.is_none()));
}

/// Affirm that `Board::shift_group` will successfully merge two cells at the start of the group.
#[test]
fn input_2_2_0_0() {
    let row = vec![Some(Cell::new(2)), Some(Cell::new(2)), None, None];
    let result = Board::shift_group(row).unwrap();
    let mut iter = result.iter();
    assert_eq!(Some(Cell::new(4)), *iter.next().unwrap());
    assert!(iter.all(|cell| cell.is_none()));
}

/// Affirm that `Board::shift_group` will return nothing on a group where none of the cells have like
/// values, as neither a shift or merge can be performed.
#[test]
fn input_2_4_8_16() {
    let row = vec![
        Some(Cell::new(2)),
        Some(Cell::new(4)),
        Some(Cell::new(8)),
        Some(Cell::new(16)),
    ];
    let result = Board::shift_group(row);
    assert!(result.is_none());
}

/// Affirm that `Board::shift_group` will return nothing on a group where none of the cells are adjacent to
/// cells with like values, as no merging or shifting can be performed.
#[test]
fn input_2_4_2_4() {
    let row = vec![
        Some(Cell::new(2)),
        Some(Cell::new(4)),
        Some(Cell::new(2)),
        Some(Cell::new(4)),
    ];
    let result = Board::shift_group(row);
    assert!(result.is_none());
}

/// Affirm that `Board::shift_group` will succeed on a group with two like values separated by a pair of
/// like values. Only one merge should be performed, and the group will shift.
#[test]
fn shift_group_input_2_4_4_2() {
    let row = vec![
        Some(Cell::new(2)),
        Some(Cell::new(4)),
        Some(Cell::new(4)),
        Some(Cell::new(2)),
    ];
    let result = Board::shift_group(row).unwrap();
    let mut iter = result.iter();
    assert_eq!(Some(Cell::new(2)), *iter.next().unwrap());
    assert_eq!(Some(Cell::new(8)), *iter.next().unwrap());
    assert_eq!(Some(Cell::new(2)), *iter.next().unwrap());
    assert!(iter.all(|cell| cell.is_none()));
}

/// Affirm that `Board::shift_group` will succeed on a group with all like values. Only two merges should
/// be performed, and the group will shift.
#[test]
fn shift_group_input_2_2_2_2() {
    let row = vec![
        Some(Cell::new(2)),
        Some(Cell::new(2)),
        Some(Cell::new(2)),
        Some(Cell::new(2)),
    ];
    let result = Board::shift_group(row).unwrap();
    let mut iter = result.iter();
    assert_eq!(Some(Cell::new(4)), *iter.next().unwrap());
    assert_eq!(Some(Cell::new(4)), *iter.next().unwrap());
    assert!(iter.all(|cell| cell.is_none()));
}

/// Affirm that each cell on the board can be spawned-at randomly until the board is full and
/// then no more.
#[test]
fn spawn_exhaustive() {
    let mut board = Board::default();
    let num_cells = BOARD_ROWS.checked_mul(BOARD_COLS).unwrap();

    for _ in 0..num_cells {
        board.spawn().unwrap();
    }

    board.spawn().unwrap_err();
}

/// Affirm that each cell on the board can be spawned-at sequentially until the board is full
/// and then no more.
#[test]
fn spawn_at_exhaustive() {
    let mut board = Board::default();
    for row in 0..BOARD_ROWS {
        for col in 0..BOARD_COLS {
            board.spawn_at(Coord(row, col)).unwrap();
        }
    }
    board.spawn().unwrap_err();
}

/// Affirm that only the bottom-leftmost cell will be non-empty if a cell is spawned there.
#[test]
fn corner_bottom_left() {
    let mut board = Board::default();
    let _ = board.spawn_at_many(vec![Coord(BOARD_ROWS - 1, 0)]);
    assert!(board.cell_at(BOARD_ROWS - 1, 0).is_some());
    for row in 0..BOARD_ROWS {
        for col in 0..BOARD_COLS {
            if (row, col) != (BOARD_ROWS - 1, 0) {
                assert!(board.cell_at(row, col).is_none());
            }
        }
    }
}

/// Affirm that only the top-leftmost cell will be non-empty if a cell is spawned there.
#[test]
fn corner_top_left() {
    let mut board = Board::default();
    let _ = board.spawn_at_many(vec![Coord(0, 0)]);
    assert!(board.cell_at(0, 0).is_some());
    for row in 0..BOARD_ROWS {
        for col in 0..BOARD_COLS {
            if (row, col) != (0, 0) {
                assert!(board.cell_at(row, col).is_none());
            }
        }
    }
}

/// Affirm that only the top-rightmost cell will be non-empty if a cell is spawned there.
#[test]
fn corner_top_right() {
    let mut board = Board::default();
    let _ = board.spawn_at_many(vec![Coord(0, BOARD_COLS - 1)]);
    assert!(board.cell_at(0, BOARD_COLS - 1).is_some());
    for row in 0..BOARD_ROWS {
        for col in 0..BOARD_COLS {
            if (row, col) != (0, BOARD_COLS - 1) {
                assert!(board.cell_at(row, col).is_none());
            }
        }
    }
}
