use chain_reaction::{Board, Cell, Discipline, GameError, Model, Msg, Player};

fn cell(dot_count: u32, owner: Option<Player>) -> Cell {
    Cell { dot_count, owner }
}

fn empty() -> Cell {
    cell(0, None)
}

#[test]
fn corner_explosion() {
    let mut board = Board::new(5, 5);
    assert!(board.apply_move(0, 0, Player::Red));
    assert_eq!(board.get(0, 0), Ok(cell(1, Some(Player::Red))));
    assert!(board.apply_move(0, 0, Player::Red));
    assert_eq!(board.get(0, 0), Ok(empty()));
    assert_eq!(board.get(0, 1), Ok(cell(1, Some(Player::Red))));
    assert_eq!(board.get(1, 0), Ok(cell(1, Some(Player::Red))));
    for row in 0..5 {
        for col in 0..5 {
            if (row, col) != (0, 1) && (row, col) != (1, 0) {
                assert_eq!(board.get(row, col), Ok(empty()));
            }
        }
    }
}

#[test]
fn illegal_move_changes_nothing() {
    let mut game = Model::new(5, 5);
    assert!(game.apply_move(0, 0, Player::Red));
    assert!(game.apply_move(4, 4, Player::Green));
    assert!(game.apply_move(4, 4, Player::Green));
    assert!(game.apply_move(4, 4, Player::Green));
    assert!(game.apply_move(0, 0, Player::Red));
    assert_eq!(game.current_player(), Player::Green);
    let before = game.board().cells();
    let last = game.last_move();
    assert!(!game.apply_move(0, 1, Player::Green));
    assert_eq!(game.board().cells(), before);
    assert_eq!(game.current_player(), Player::Green);
    assert_eq!(game.last_move(), last);
    assert_eq!(game.get_cell(0, 1), Ok(cell(1, Some(Player::Red))));
}

#[test]
fn illegal_move_is_named() {
    let mut board = Board::new(3, 3);
    assert!(board.apply_move(1, 1, Player::Blue));
    let before = board.cells();
    assert_eq!(
        board.increment_count(1, 1, Player::Yellow, false, Discipline::Fifo),
        Err(GameError::IllegalMove)
    );
    assert_eq!(board.cells(), before);
}

#[test]
fn chained_explosions() {
    let mut board = Board::new(5, 5);
    assert_eq!(board.set(0, 0, cell(1, Some(Player::Green))), Ok(()));
    assert_eq!(board.set(0, 1, cell(2, Some(Player::Green))), Ok(()));
    assert!(board.apply_move(0, 0, Player::Green));
    let green = Some(Player::Green);
    assert_eq!(board.get(0, 0), Ok(cell(1, green)));
    assert_eq!(board.get(0, 1), Ok(empty()));
    assert_eq!(board.get(1, 0), Ok(cell(1, green)));
    assert_eq!(board.get(0, 2), Ok(cell(1, green)));
    assert_eq!(board.get(1, 1), Ok(cell(1, green)));
    let mut dots = 0;
    for line in board.cells() {
        for cell in line {
            dots += cell.dot_count;
        }
    }
    assert_eq!(dots, 4);
}

#[test]
fn explosion_takes_over_foreign_cells() {
    let mut board = Board::new(3, 3);
    assert_eq!(board.set(0, 1, cell(1, Some(Player::Blue))), Ok(()));
    assert_eq!(board.set(1, 0, cell(2, Some(Player::Yellow))), Ok(()));
    assert_eq!(board.set(0, 0, cell(1, Some(Player::Red))), Ok(()));
    assert!(board.apply_move(0, 0, Player::Red));
    let red = Some(Player::Red);
    assert_eq!(board.get(0, 0), Ok(cell(1, red)));
    assert_eq!(board.get(0, 1), Ok(cell(2, red)));
    assert_eq!(board.get(1, 0), Ok(empty()));
    assert_eq!(board.get(1, 1), Ok(cell(1, red)));
    assert_eq!(board.get(2, 0), Ok(cell(1, red)));
}

#[test]
fn forced_placement_transfers_ownership() {
    let mut board = Board::new(3, 3);
    assert!(board.apply_move(1, 1, Player::Blue));
    assert_eq!(
        board.increment_count(1, 1, Player::Yellow, true, Discipline::Lifo),
        Ok(())
    );
    assert_eq!(board.get(1, 1), Ok(cell(2, Some(Player::Yellow))));
}

#[test]
fn out_of_bounds_move_is_refused() {
    let mut board = Board::new(2, 3);
    let before = board.cells();
    assert!(!board.apply_move(2, 0, Player::Red));
    assert!(!board.apply_move(0, 3, Player::Red));
    assert_eq!(
        board.increment_count(5, 5, Player::Red, true, Discipline::Fifo),
        Err(GameError::OutOfBounds)
    );
    assert_eq!(board.cells(), before);
}

#[test]
fn cascade_without_rest_is_refused() {
    let mut board = Board::new(1, 2);
    assert_eq!(board.topple_limit(), 8);
    let before = board.cells();
    assert_eq!(
        board.increment_count(0, 0, Player::Red, false, Discipline::Fifo),
        Err(GameError::InvariantViolation)
    );
    assert_eq!(board.cells(), before);
    assert_eq!(
        board.increment_count(0, 1, Player::Red, false, Discipline::Lifo),
        Err(GameError::InvariantViolation)
    );
    assert!(!board.apply_move(0, 0, Player::Red));
    assert_eq!(board.cells(), before);
}

#[test]
fn full_board_refuses_the_next_dot() {
    let mut board = Board::new(3, 3);
    for row in 0..3 {
        for col in 0..3 {
            let room = board.capacity(row, col) as u32 - 1;
            assert_eq!(board.set(row, col, cell(room, Some(Player::Red))), Ok(()));
        }
    }
    let before = board.cells();
    for row in 0..3 {
        for col in 0..3 {
            assert!(!board.apply_move(row, col, Player::Red));
            assert_eq!(board.cells(), before);
        }
    }
}

#[test]
fn single_cell_only_counts() {
    let mut board = Board::new(1, 1);
    assert_eq!(board.capacity(0, 0), 0);
    for dots in 1..=5 {
        assert!(board.apply_move(0, 0, Player::Blue));
        assert_eq!(board.get(0, 0), Ok(cell(dots, Some(Player::Blue))));
    }
    assert!(!board.apply_move(0, 0, Player::Red));
    assert_eq!(board.set(0, 0, cell(u32::MAX, Some(Player::Blue))), Ok(()));
    assert_eq!(
        board.increment_count(0, 0, Player::Blue, false, Discipline::Fifo),
        Err(GameError::InvariantViolation)
    );
    assert_eq!(board.get(0, 0), Ok(cell(u32::MAX, Some(Player::Blue))));
}

#[test]
fn ten_moves_pass_the_turn_ten_times() {
    let mut game = Model::new(5, 5);
    let ring = [Player::Red, Player::Green, Player::Blue, Player::Yellow];
    let spots = [
        (0, 0),
        (0, 2),
        (0, 4),
        (2, 0),
        (2, 2),
        (2, 4),
        (4, 0),
        (4, 2),
        (4, 4),
        (1, 1),
    ];
    for (made, spot) in spots.iter().enumerate() {
        assert_eq!(game.current_player(), ring[made % 4]);
        assert!(game.update(Msg::AddDot(spot.0, spot.1)));
        assert_eq!(game.last_move(), Some(*spot));
        assert_eq!(game.current_player(), ring[(made + 1) % 4]);
        if (made + 1) % 4 == 0 {
            assert_eq!(game.current_player(), Player::Red);
        }
    }
    assert_eq!(game.current_player(), Player::Blue);
}

#[test]
fn refused_request_keeps_the_turn() {
    let mut game = Model::create();
    assert_eq!(game.dimensions(), (5, 5));
    assert_eq!(game.current_player(), Player::Red);
    assert_eq!(game.last_move(), None);
    assert!(game.update(Msg::AddDot(2, 2)));
    assert_eq!(game.current_player(), Player::Green);
    let before = game.board().cells();
    assert!(game.update(Msg::AddDot(2, 2)));
    assert_eq!(game.current_player(), Player::Green);
    assert_eq!(game.last_move(), Some((2, 2)));
    assert_eq!(game.board().cells(), before);
    assert!(game.update(Msg::AddDot(9, 9)));
    assert_eq!(game.current_player(), Player::Green);
    assert_eq!(game.get_cell(9, 9), Err(GameError::OutOfBounds));
    assert_eq!(game.get_cell(2, 2), Ok(cell(1, Some(Player::Red))));
}
