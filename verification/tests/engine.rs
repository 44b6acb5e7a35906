use tictactoe::engine::{make_game, Game, TieBreak};
use tictactoe::model::{Board, Coord, GameError, Outcome, Piece, Player};

fn board_from(sketch: &str) -> Board {
    let mut board = Board::new();
    let rows: Vec<&str> = sketch.lines().filter(|l| l.contains('|')).collect();
    assert_eq!(rows.len(), 3);
    for (r, row) in rows.iter().enumerate() {
        for (c, cell) in row.split('|').enumerate() {
            match cell.trim() {
                "X" => board.place(Coord(r, c), Piece::Cross).unwrap(),
                "O" => board.place(Coord(r, c), Piece::Circle).unwrap(),
                _ => {}
            }
        }
    }
    board
}

#[test]
fn winner_one() {
    let game = make_game(board_from(
        r#"
            X|O|
             |O|
            X|O|X"#,
    ));
    let winner = game.winner();
    assert_eq!(winner, Some(Player::Human));
}

#[test]
fn winner_two() {
    let game = make_game(board_from(
        r#"
            X|O|X
            X|X|O
            O| |O"#,
    ));
    let winner = game.winner();
    assert_eq!(winner, None);
}

#[test]
fn make_best_move() {
    let boards: [(&str, Coord); 2] = [
        (
            r#"
            X|O|X
             | |
             | |O"#,
            Coord(2, 0),
        ),
        (
            r#"
            X|O|X
            X| |O
            O|X|O"#,
            Coord(1, 1),
        ),
    ];
    for (sketch, expected) in boards {
        let mut game = make_game(board_from(sketch));
        let best_move = game.computer_move();
        assert_eq!(best_move, Some(expected));
    }
}

#[test]
fn empty_board_is_at_worst_a_tie() {
    let mut game = make_game(Board::new());
    let result = game.best_move(Piece::Cross);
    let (coord, outcome) = result.expect("an empty board has moves");
    assert!(coord.0 < 3 && coord.1 < 3);
    assert!(!matches!(outcome, Outcome::Loss));
    assert_eq!(outcome, Outcome::Tie);
}

#[test]
fn immediate_win_is_taken() {
    let mut game = make_game(board_from(
        r#"
            X|O|X
            O|O|
            O|X|X"#,
    ));
    let result = game.best_move(Piece::Cross);
    assert_eq!(result, Some((Coord(1, 2), Outcome::Win)));
}

#[test]
fn full_board_has_no_move() {
    let mut game = make_game(board_from(
        r#"
            X|O|X
            X|O|O
            O|X|X"#,
    ));
    assert_eq!(game.best_move(Piece::Circle), None);
    assert_eq!(game.computer_move(), None);
}

#[test]
fn threat_is_blocked() {
    // crosses threaten the top row; every other reply loses outright
    let mut game = make_game(board_from(
        r#"
            X|X|
             | |
             | |O"#,
    ));
    let result = game.best_move(Piece::Circle);
    let (coord, outcome) = result.expect("moves remain");
    assert_eq!(coord, Coord(0, 2));
    assert!(!matches!(outcome, Outcome::Loss));
}

#[test]
fn best_move_is_idempotent_with_persisted_cache() {
    let mut game = make_game(board_from(
        r#"
            X|O|
             | |
             | |X"#,
    ));
    let first = game.best_move(Piece::Circle);
    let second = game.best_move(Piece::Circle);
    assert_eq!(first, second);
    let third = game.computer_move();
    let fourth = game.computer_move();
    assert_eq!(third, fourth);
}

#[test]
fn random_tie_break_still_picks_a_blank_cell() {
    for _ in 0..8 {
        let mut game = make_game(Board::new());
        game.tie_break = TieBreak::Random;
        let coord = game.computer_move().expect("an empty board has moves");
        assert!(coord.0 < 3 && coord.1 < 3);
        assert_eq!(game.board.get(coord), Ok(Piece::Blank));
    }
}

#[test]
fn new_game_starts_blank() {
    let game = Game::new();
    for r in 0..3 {
        for c in 0..3 {
            assert_eq!(game.board.get(Coord(r, c)), Ok(Piece::Blank));
        }
    }
    assert_eq!(game.winner(), None);
}

#[test]
fn play_board_move_drives_the_computer() {
    let mut game = make_game(Board::new());
    assert_eq!(game.play_board_move(None), Ok(()));
    // the deterministic opening is the first corner
    assert_eq!(game.board.get(Coord(0, 0)), Ok(Piece::Cross));
}

#[test]
fn play_board_move_needs_a_human_cell() {
    // one mark down, so the side that did not open is to move: the human
    let mut board = Board::new();
    board.place(Coord(1, 1), Piece::Cross).unwrap();
    let mut game = make_game(board);
    assert_eq!(game.play_board_move(None), Err(GameError::NoLegalMove));
    assert_eq!(
        game.play_board_move(Some(Coord(4, 0))),
        Err(GameError::OutOfBounds)
    );
    assert_eq!(
        game.play_board_move(Some(Coord(1, 1))),
        Err(GameError::CellOccupied)
    );
    assert_eq!(game.play_board_move(Some(Coord(0, 0))), Ok(()));
    assert_eq!(game.board.get(Coord(0, 0)), Ok(Piece::Circle));
}

#[test]
fn winner_found_by_piece() {
    let game = make_game(board_from(
        r#"
            X|X|X
             |O|
             |O| "#,
    ));
    // crosses belong to the computer, which moved first
    assert_eq!(game.winner(), Some(Player::Computer));
}
