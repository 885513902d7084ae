use chain_reaction::{Board, Cell, GameError, Player};

#[test]
fn players_follow_the_ring() {
    assert_eq!(Player::Red.next_player(), Player::Green);
    assert_eq!(Player::Green.next_player(), Player::Blue);
    assert_eq!(Player::Blue.next_player(), Player::Yellow);
    assert_eq!(Player::Yellow.next_player(), Player::Red);
    for start in [Player::Red, Player::Green, Player::Blue, Player::Yellow] {
        let mut player = start;
        for turn in 1..=12 {
            player = player.next_player();
            assert_eq!(player == start, turn % 4 == 0);
        }
    }
}

#[test]
fn players_have_colours() {
    assert_eq!(Player::Red.color(), "red");
    assert_eq!(Player::Green.color(), "green");
    assert_eq!(Player::Blue.color(), "blue");
    assert_eq!(Player::Yellow.color(), "yellow");
}

#[test]
fn new_cell_is_empty() {
    let cell = Cell::new();
    assert_eq!(cell.dot_count, 0);
    assert_eq!(cell.owner, None);
    assert_eq!(cell, Cell::default());
    assert!(cell.is_consistent());
    assert_eq!(cell.color(), "white");
}

#[test]
fn add_dot_respects_the_owner() {
    let mut cell = Cell::new();
    assert!(cell.accepts(Player::Blue));
    assert!(cell.add_dot(Player::Blue));
    assert_eq!(cell, Cell { dot_count: 1, owner: Some(Player::Blue) });
    assert!(cell.add_dot(Player::Blue));
    assert_eq!(cell, Cell { dot_count: 2, owner: Some(Player::Blue) });
    assert!(!cell.accepts(Player::Red));
    assert!(!cell.add_dot(Player::Red));
    assert_eq!(cell, Cell { dot_count: 2, owner: Some(Player::Blue) });
    assert_eq!(cell.color(), "blue");
    cell.reset();
    assert_eq!(cell, Cell::new());
    assert!(cell.add_dot(Player::Red));
    assert_eq!(cell.color(), "red");
}

#[test]
fn add_dot_stops_at_the_largest_count() {
    let mut cell = Cell { dot_count: u32::MAX, owner: Some(Player::Green) };
    assert!(!cell.add_dot(Player::Green));
    assert_eq!(cell, Cell { dot_count: u32::MAX, owner: Some(Player::Green) });
}

#[test]
fn inconsistent_cells_are_told_apart() {
    assert!(Cell { dot_count: 3, owner: Some(Player::Red) }.is_consistent());
    assert!(!Cell { dot_count: 3, owner: None }.is_consistent());
    assert!(!Cell { dot_count: 0, owner: Some(Player::Red) }.is_consistent());
}

#[test]
fn new_board_is_empty() {
    let board = Board::new(4, 7);
    assert_eq!(board.rows(), 4);
    assert_eq!(board.cols(), 7);
    assert_eq!(board.dimensions(), (4, 7));
    let table = board.cells();
    assert_eq!(table.len(), 4);
    for line in &table {
        assert_eq!(line.len(), 7);
        for cell in line {
            assert_eq!(*cell, Cell::new());
        }
    }
    assert_eq!(board.get(3, 6), Ok(Cell::new()));
}

#[test]
fn board_without_rows_or_columns_has_neither() {
    assert_eq!(Board::new(0, 5).dimensions(), (0, 0));
    assert_eq!(Board::new(5, 0).dimensions(), (0, 0));
    assert_eq!(Board::new(0, 0).dimensions(), (0, 0));
    let mut board = Board::new(0, 5);
    assert_eq!(board.cells().len(), 0);
    assert_eq!(board.get(0, 0), Err(GameError::OutOfBounds));
    assert!(!board.apply_move(0, 0, Player::Red));
    assert_eq!(board.topple_limit(), 0);
}

#[test]
fn capacity_counts_the_neighbours() {
    let board = Board::new(5, 5);
    assert_eq!(board.capacity(0, 0), 2);
    assert_eq!(board.capacity(0, 4), 2);
    assert_eq!(board.capacity(4, 0), 2);
    assert_eq!(board.capacity(4, 4), 2);
    assert_eq!(board.capacity(0, 2), 3);
    assert_eq!(board.capacity(2, 0), 3);
    assert_eq!(board.capacity(4, 3), 3);
    assert_eq!(board.capacity(1, 4), 3);
    assert_eq!(board.capacity(2, 2), 4);
    assert_eq!(board.capacity(1, 3), 4);
    let strip = Board::new(1, 4);
    assert_eq!(strip.capacity(0, 0), 1);
    assert_eq!(strip.capacity(0, 1), 2);
    assert_eq!(strip.capacity(0, 3), 1);
}

#[test]
fn neighbours_come_in_a_fixed_order() {
    let board = Board::new(5, 5);
    assert_eq!(
        board.get_adjacent_indices(2, 2),
        vec![(1, 2), (3, 2), (2, 1), (2, 3)]
    );
    assert_eq!(board.get_adjacent_indices(0, 0), vec![(1, 0), (0, 1)]);
    assert_eq!(board.get_adjacent_indices(4, 4), vec![(3, 4), (4, 3)]);
    assert_eq!(
        board.get_adjacent_indices(0, 3),
        vec![(1, 3), (0, 2), (0, 4)]
    );
    assert_eq!(
        board.get_adjacent_indices(3, 0),
        vec![(2, 0), (4, 0), (3, 1)]
    );
    assert_eq!(Board::new(1, 1).get_adjacent_indices(0, 0), vec![]);
}

#[test]
fn get_and_set_check_the_bounds() {
    let mut board = Board::new(2, 3);
    let dot = Cell { dot_count: 1, owner: Some(Player::Yellow) };
    assert_eq!(board.set(1, 2, dot), Ok(()));
    assert_eq!(board.get(1, 2), Ok(dot));
    assert_eq!(board.get(0, 2), Ok(Cell::new()));
    assert_eq!(board.get(2, 0), Err(GameError::OutOfBounds));
    assert_eq!(board.get(0, 3), Err(GameError::OutOfBounds));
    assert_eq!(board.set(2, 0, dot), Err(GameError::OutOfBounds));
    assert_eq!(board.set(0, 3, dot), Err(GameError::OutOfBounds));
    assert_eq!(board.set(1, 2, Cell::new()), Ok(()));
    assert_eq!(board.get(1, 2), Ok(Cell::new()));
}

#[test]
fn set_keeps_the_board_valid() {
    let mut board = Board::new(3, 3);
    let before = board.cells();
    let red = Some(Player::Red);
    assert_eq!(
        board.set(0, 0, Cell { dot_count: 2, owner: red }),
        Err(GameError::InvariantViolation)
    );
    assert_eq!(
        board.set(0, 1, Cell { dot_count: 3, owner: red }),
        Err(GameError::InvariantViolation)
    );
    assert_eq!(
        board.set(1, 1, Cell { dot_count: 4, owner: red }),
        Err(GameError::InvariantViolation)
    );
    assert_eq!(
        board.set(1, 1, Cell { dot_count: 1, owner: None }),
        Err(GameError::InvariantViolation)
    );
    assert_eq!(
        board.set(1, 1, Cell { dot_count: 0, owner: red }),
        Err(GameError::InvariantViolation)
    );
    assert_eq!(board.cells(), before);
    assert_eq!(board.set(0, 0, Cell { dot_count: 1, owner: red }), Ok(()));
    assert_eq!(board.set(0, 1, Cell { dot_count: 2, owner: red }), Ok(()));
    assert_eq!(board.set(1, 1, Cell { dot_count: 3, owner: red }), Ok(()));
}

#[test]
fn clone_is_a_board_of_its_own() {
    let mut board = Board::new(3, 3);
    assert!(board.apply_move(1, 1, Player::Red));
    let copy = board.clone();
    assert!(board.apply_move(1, 1, Player::Red));
    assert_eq!(copy.get(1, 1), Ok(Cell { dot_count: 1, owner: Some(Player::Red) }));
    assert_eq!(board.get(1, 1), Ok(Cell { dot_count: 2, owner: Some(Player::Red) }));
    assert_eq!(copy.dimensions(), (3, 3));
}

#[test]
fn topple_limit_is_the_cube_of_the_size() {
    assert_eq!(Board::new(5, 5).topple_limit(), 15_625);
    assert_eq!(Board::new(1, 1).topple_limit(), 1);
    assert_eq!(Board::new(2, 3).topple_limit(), 216);
    assert_eq!(Board::new(10, 10).topple_limit(), 1_000_000);
    assert_eq!(Board::new(27, 37).topple_limit(), 997_002_999);
    assert_eq!(Board::new(25, 40).topple_limit(), 1_000_000_000);
    assert_eq!(Board::new(100, 100).topple_limit(), 1_000_000_000);
}

#[test]
fn boards_made_by_moves_and_sets_are_valid() {
    let mut board = Board::new(4, 4);
    assert!(board.is_valid());
    assert!(board.apply_move(0, 0, Player::Red));
    assert!(board.apply_move(0, 0, Player::Red));
    assert!(board.is_valid());
    assert_eq!(board.set(3, 3, Cell { dot_count: 1, owner: Some(Player::Blue) }), Ok(()));
    assert_eq!(
        board.set(3, 3, Cell { dot_count: 2, owner: Some(Player::Blue) }),
        Err(GameError::InvariantViolation)
    );
    assert!(board.is_valid());
    assert!(Board::new(1, 1).is_valid());
    assert!(Board::new(0, 0).is_valid());
}
