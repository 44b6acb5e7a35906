use tictactoe::model::{Board, Coord, GameError, Outcome, Piece, Player};

#[test]
fn get_rejects_out_of_bounds_coordinates() {
    let board = Board::new();
    assert_eq!(board.get(Coord(3, 0)), Err(GameError::OutOfBounds));
    assert_eq!(board.get(Coord(0, 3)), Err(GameError::OutOfBounds));
    assert_eq!(board.get(Coord(2, 2)), Ok(Piece::Blank));
}

#[test]
fn place_rejects_occupied_cells() {
    let mut board = Board::new();
    assert_eq!(board.place(Coord(1, 1), Piece::Cross), Ok(()));
    assert_eq!(
        board.place(Coord(1, 1), Piece::Circle),
        Err(GameError::CellOccupied)
    );
    assert_eq!(
        board.place(Coord(9, 9), Piece::Circle),
        Err(GameError::OutOfBounds)
    );
    assert_eq!(board.get(Coord(1, 1)), Ok(Piece::Cross));
}

#[test]
fn reset_clears_a_cell() {
    let mut board = Board::new();
    board.place(Coord(0, 2), Piece::Circle).unwrap();
    assert_eq!(board.reset(Coord(0, 2)), Ok(()));
    assert_eq!(board.get(Coord(0, 2)), Ok(Piece::Blank));
    assert_eq!(board.reset(Coord(0, 7)), Err(GameError::OutOfBounds));
}

#[test]
fn used_cells_counts_marks() {
    let mut board = Board::new();
    assert_eq!(board.used_cells(), 0);
    board.place(Coord(0, 0), Piece::Cross).unwrap();
    board.place(Coord(1, 1), Piece::Circle).unwrap();
    board.place(Coord(2, 2), Piece::Cross).unwrap();
    assert_eq!(board.used_cells(), 3);
    board.reset(Coord(1, 1)).unwrap();
    assert_eq!(board.used_cells(), 2);
}

#[test]
fn outcome_opposite_is_an_involution() {
    for o in [Outcome::Win, Outcome::Tie, Outcome::Loss] {
        assert_eq!(o.opposite().opposite(), o);
    }
    assert_eq!(Outcome::Tie.opposite(), Outcome::Tie);
    assert_eq!(Outcome::Win.opposite(), Outcome::Loss);
    assert_eq!(Outcome::Loss.opposite(), Outcome::Win);
}

#[test]
fn piece_opposite_swaps_marks() {
    assert_eq!(Piece::Cross.opposite(), Piece::Circle);
    assert_eq!(Piece::Circle.opposite(), Piece::Cross);
    assert_eq!(Piece::Blank.opposite(), Piece::Blank);
}

#[test]
fn player_opposite_swaps_sides() {
    assert_eq!(Player::Human.opposite(), Player::Computer);
    assert_eq!(Player::Computer.opposite(), Player::Human);
}

#[test]
fn coordinate_bounds_and_flattening() {
    assert!(Coord(2, 2).out_of_bounds().is_ok());
    assert_eq!(Coord(3, 1).out_of_bounds(), Err(GameError::OutOfBounds));
    assert_eq!(Coord(1, 3).out_of_bounds(), Err(GameError::OutOfBounds));
    assert_eq!(Coord(0, 0).flat_ind(), 0);
    assert_eq!(Coord(1, 2).flat_ind(), 5);
    assert_eq!(Coord(2, 2).flat_ind(), 8);
}
