use tictactoe::cache::Cache;
use tictactoe::model::{Board, Coord, Outcome, Piece};

fn board_from(sketch: &str) -> Board {
    let mut board = Board::new();
    let rows: Vec<&str> = sketch.lines().filter(|l| l.contains('|')).collect();
    assert_eq!(rows.len(), 3);
    for (r, row) in rows.iter().enumerate() {
        for (c, cell) in row.split('|').enumerate() {
            match cell.trim() {
                "X" => board.place(Coord(r, c), Piece::Cross).unwrap(),
                "O" => board.place(Coord(r, c), Piece::Circle).unwrap(),
                _ => {}
            }
        }
    }
    board
}

fn cells() -> Vec<Coord> {
    let mut v = Vec::new();
    for r in 0..3 {
        for c in 0..3 {
            v.push(Coord(r, c));
        }
    }
    v
}

fn default_rotations() -> [Board; 4] {
    [
        board_from(
            r#"
            X| |
             | |
             | | "#,
        ),
        board_from(
            r#"
             | |X
             | |
             | | "#,
        ),
        board_from(
            r#"
             | |
             | |
             | |X"#,
        ),
        board_from(
            r#"
             | |
             | |
            X| | "#,
        ),
    ]
}

#[test]
fn cached_result_is_rotated() {
    let mut cache = Cache::new();

    for &coord in cells().iter() {
        let mut board = Board::new();
        board.place(coord, Piece::Cross).unwrap();
        cache.add(&board, (coord, Outcome::Win));
    }
    assert_eq!(cache.len(), 3);
}

#[test]
fn board_rotate() {
    let mut board = Board::new();
    assert_eq!(board.rotate_min(), (0, 0));
    board.place(Coord(0, 0), Piece::Cross).unwrap();
    assert_eq!(board.rotate_min(), (0, 2));
    for (&expected, times) in default_rotations().iter().zip(0..4) {
        assert_eq!(board.right_rotate(times), expected)
    }
}

fn test_rotation(expected_results: [Coord; 4]) {
    let rotations = default_rotations();
    let mut cache = Cache::new();
    cache.add(&rotations[0], (expected_results[0], Outcome::Win));
    for (&rotation, expected) in rotations.iter().zip(expected_results) {
        assert_eq!(cache.check(rotation), Some((expected, Outcome::Win)));
    }
}

#[test]
fn rerotate() {
    test_rotation([Coord(2, 2), Coord(2, 0), Coord(0, 0), Coord(0, 2)]);
    test_rotation([Coord(1, 2), Coord(2, 1), Coord(1, 0), Coord(0, 1)]);
    test_rotation([Coord(1, 1), Coord(1, 1), Coord(1, 1), Coord(1, 1)]);
}

#[test]
fn rotating_a_coordinate_four_times_is_identity() {
    for &coord in cells().iter() {
        assert_eq!(Board::right_rotate_coord(coord, 4), coord);
        for k in 0..5 {
            let there = Board::right_rotate_coord(coord, k);
            assert_eq!(Board::right_rotate_coord(there, 4 - k), coord);
        }
    }
}

#[test]
fn canonicalization_is_deterministic() {
    let board = board_from(
        r#"
            X|O|
             |O|
            X|O|X"#,
    );
    let first = board.rotate_min();
    let second = board.rotate_min();
    assert_eq!(first, second);
    let rebuilt = board_from(
        r#"
            X|O|
             |O|
            X|O|X"#,
    );
    assert_eq!(rebuilt.rotate_min(), first);
}

#[test]
fn canonical_key_is_rotation_invariant() {
    let board = board_from(
        r#"
            X|O|X
            X| |O
            O|X|O"#,
    );
    let key = board.rotate_min().1;
    for r in 0..4 {
        assert_eq!(board.right_rotate(r).rotate_min().1, key);
    }
}

#[test]
fn encode_packs_two_bits_per_cell() {
    let mut board = Board::new();
    assert_eq!(board.encode(), 0);
    board.place(Coord(0, 0), Piece::Cross).unwrap();
    assert_eq!(board.encode(), 2);
    board.place(Coord(0, 1), Piece::Circle).unwrap();
    assert_eq!(board.encode(), 2 + 1 * 4);
    board.place(Coord(1, 1), Piece::Cross).unwrap();
    assert_eq!(board.encode(), 2 + 1 * 4 + 2 * 256);
}

#[test]
fn right_rotate_full_turn_is_identity() {
    let board = board_from(
        r#"
            X|O|X
            X| |O
            O|X|O"#,
    );
    assert_eq!(board.right_rotate(4), board);
    assert_eq!(board.right_rotate(0), board);
}
