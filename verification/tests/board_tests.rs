use minesweeper::board::{Board, Cell, CellState, CellType, Error, ExternalCell};

fn number_cells(count: usize) -> Vec<Cell> {
    (0..count)
        .map(|index| Cell {
            index,
            cell_type: CellType::Number,
            state: CellState::Unrevealed,
        })
        .collect()
}

/// A 4x4 board whose only mine sits at index 0.
fn board_with_mine_at_zero() -> Board {
    let mut data = number_cells(16);
    data[0] = Cell {
        index: 0,
        cell_type: CellType::Mine,
        state: CellState::Unrevealed,
    };
    Board::from_cells(4, data).unwrap()
}

#[test]
fn test_flag() {
    let mut board = Board::generate(5);

    let _ = board.toggle_flag(11);

    assert!(board.get(11).unwrap().state == CellState::Flagged);
}

#[test]
fn test_reveal() {
    let mut board = Board::generate(5);

    let _ = board.reveal_cell(21);

    assert!(board.get(21).unwrap().state == CellState::Revealed);
}

#[test]
fn test_get_invalid() {
    let board = Board::generate(5);
    assert!(board.get(51).is_none());
    assert!(board.get(25).is_none());
}

#[test]
fn test_corner_surroundings() {
    let board = Board::generate(8);

    assert_eq!(
        board.iter_surrounding_positions(0),
        vec![1, 8, 9]
    );
}

#[test]
fn test_surrounding_mines_count() {
    let mut data: Vec<Cell> = (0..16)
        .map(|index| Cell {
            index,
            cell_type: CellType::Number,
            state: CellState::Unrevealed,
        })
        .collect();

    data[0] = Cell {
        index: 0,
        cell_type: CellType::Mine,
        state: CellState::Unrevealed,
    };

    let board = Board::from_cells(4, data).unwrap();

    assert_eq!(board.get_surrounding_mines_count(1), 1);
    assert_eq!(board.get_surrounding_mines_count(4), 1);
    assert_eq!(board.get_surrounding_mines_count(2), 0);
    assert_eq!(board.get_surrounding_mines_count(0), 0);
}

#[test]
fn toggle_flag_twice_is_identity() {
    let mut board = board_with_mine_at_zero();
    let before = board.get_external_state();

    assert!(board.toggle_flag(3).is_ok());
    assert!(board.get(3).unwrap().state == CellState::Flagged);
    assert!(board.toggle_flag(3).is_ok());
    assert!(board.get(3).unwrap().state == CellState::Unrevealed);

    assert_eq!(board.get_external_state(), before);
}

#[test]
fn toggle_flag_on_revealed_fails_and_changes_nothing() {
    let mut board = board_with_mine_at_zero();
    // Index 1 touches the mine, so revealing it reveals that one cell only.
    assert!(board.reveal_cell(1).is_ok());
    let before = board.get_external_state();

    let result = board.toggle_flag(1);
    assert!(matches!(result, Err(Error::InvalidMove)));
    assert_eq!(board.get_external_state(), before);
}

#[test]
fn toggle_flag_out_of_bounds() {
    let mut board = board_with_mine_at_zero();
    assert!(matches!(
        board.toggle_flag(16),
        Err(Error::CoordinatesOutOfBound)
    ));
}

#[test]
fn reveal_out_of_bounds() {
    let mut board = board_with_mine_at_zero();
    assert!(matches!(
        board.reveal_cell(16),
        Err(Error::CoordinatesOutOfBound)
    ));
}

#[test]
fn external_state_never_leaks_unrevealed_types() {
    // Two boards with the same states but different hidden types must look
    // identical from outside as long as nothing is revealed.
    let with_mine = board_with_mine_at_zero();
    let without_mine = Board::from_cells(4, number_cells(16)).unwrap();

    assert_eq!(
        with_mine.get_external_state(),
        without_mine.get_external_state()
    );

    // A flagged mine shows as flagged, not as a mine.
    let mut flagged = board_with_mine_at_zero();
    assert!(flagged.toggle_flag(0).is_ok());
    assert_eq!(flagged.get_external_state()[0], ExternalCell::Flagged);
}

#[test]
fn flood_fill_reveals_zero_region_and_boundary() {
    // On a 4x4 board with the single mine at index 0, revealing index 15
    // must reveal every cell except index 0.
    let mut board = board_with_mine_at_zero();
    assert!(board.reveal_cell(15).is_ok());

    let state = board.get_external_state();
    assert_eq!(state[0], ExternalCell::Unrevealed);
    for index in 1..16 {
        assert!(
            !matches!(state[index], ExternalCell::Unrevealed),
            "cell {} should be revealed",
            index
        );
    }
    assert_eq!(state[1], ExternalCell::Number { value: 1 });
    assert_eq!(state[5], ExternalCell::Number { value: 1 });
    assert_eq!(state[2], ExternalCell::Number { value: 0 });
}

#[test]
fn flood_fill_is_idempotent() {
    let mut board = board_with_mine_at_zero();
    assert!(board.reveal_cell(15).is_ok());
    let after_first = board.get_external_state();

    let second = board.reveal_cell(15);
    assert!(second.is_ok());
    assert_eq!(board.get_external_state(), after_first);
}

#[test]
fn revealing_a_mine_flips_that_cell_alone() {
    let mut board = board_with_mine_at_zero();
    assert!(board.reveal_cell(0).is_ok());

    let state = board.get_external_state();
    assert_eq!(state[0], ExternalCell::Mine);
    for index in 1..16 {
        assert_eq!(state[index], ExternalCell::Unrevealed);
    }
}

#[test]
fn flagged_cells_stay_flagged_through_flood_fill() {
    // A flagged cell inside the zero region is not revealed by the flood;
    // only the target itself overrides a flag.
    let mut board = board_with_mine_at_zero();
    assert!(board.toggle_flag(10).is_ok());
    assert!(board.reveal_cell(15).is_ok());

    let state = board.get_external_state();
    assert_eq!(state[10], ExternalCell::Flagged);
    assert_eq!(state[15], ExternalCell::Number { value: 0 });
}

#[test]
fn degenerate_empty_board() {
    let mut board = Board::generate(0);
    assert_eq!(board.size(), 0);
    assert_eq!(board.get_external_state().len(), 0);
    assert!(matches!(
        board.toggle_flag(0),
        Err(Error::CoordinatesOutOfBound)
    ));
}

#[test]
fn from_cells_rejects_bad_input() {
    // Wrong length.
    assert!(Board::from_cells(2, number_cells(3)).is_none());
    // Wrong recorded index.
    let mut data = number_cells(4);
    data[2].index = 7;
    assert!(Board::from_cells(2, data).is_none());
}

#[test]
fn coordinate_conversions() {
    assert_eq!(Board::to_index(4, 2, 3), Some(11));
    assert_eq!(Board::to_index(4, 4, 0), None);
    assert_eq!(Board::to_index(4, 0, 4), None);
    assert_eq!(Board::to_coords(4, 11), Some((2, 3)));
    assert_eq!(Board::to_coords(4, 16), None);
    assert_eq!(Board::to_coords(0, 0), None);
}

#[test]
fn generate_makes_unrevealed_square_board() {
    let board = Board::generate(6);
    assert_eq!(board.size(), 6);
    let cells = board.iter_cells();
    assert_eq!(cells.len(), 36);
    for (i, cell) in cells.iter().enumerate() {
        assert_eq!(cell.index, i);
        assert!(cell.state == CellState::Unrevealed);
    }
}
