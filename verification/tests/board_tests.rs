use a_puzzle_a_day::board::Board;
use a_puzzle_a_day::board::Date;
use a_puzzle_a_day::board::Path;
use a_puzzle_a_day::board::Piece;
use a_puzzle_a_day::board::Rotation;
use a_puzzle_a_day::board::Square;
use a_puzzle_a_day::board::Status;

fn rot(i: u8) -> Rotation {
    Rotation::from_index(i)
}

fn place_on(board: &Board, piece: Piece, square: u8, rotation: u8, mirror: bool) -> Option<Board> {
    let path = Path::from_orientation(piece, rot(rotation), mirror);
    board.place(piece, Square::from_index(square).unwrap(), &path)
}

/// A full tiling that leaves squares 0 and 14 uncovered: January 1.
fn jan1_solution() -> Board {
    let mut board = Board::new();
    let placements: [(Piece, u8, u8, bool); 8] = [
        (Piece::L, 31, 3, true),
        (Piece::N, 33, 1, true),
        (Piece::O, 16, 0, false),
        (Piece::P, 44, 1, false),
        (Piece::U, 40, 1, false),
        (Piece::V, 23, 0, false),
        (Piece::Y, 22, 0, false),
        (Piece::Z, 4, 0, false),
    ];
    for &(piece, square, rotation, mirror) in placements.iter() {
        board = place_on(&board, piece, square, rotation, mirror).unwrap();
    }
    board
}

/// A full tiling that leaves squares 1 and 43 uncovered: February 30, which
/// is not a valid calendar date.
fn feb30_tiling() -> Board {
    let mut board = Board::new();
    let placements: [(Piece, u8, u8, bool); 8] = [
        (Piece::L, 24, 3, false),
        (Piece::N, 33, 0, true),
        (Piece::O, 16, 0, false),
        (Piece::P, 0, 2, true),
        (Piece::U, 44, 2, false),
        (Piece::V, 39, 0, false),
        (Piece::Y, 29, 3, true),
        (Piece::Z, 4, 0, false),
    ];
    for &(piece, square, rotation, mirror) in placements.iter() {
        board = place_on(&board, piece, square, rotation, mirror).unwrap();
    }
    board
}

#[test]
fn place_succeeds_on_empty_cells() {
    let board = Board::new();
    assert!(place_on(&board, Piece::O, 16, 0, false).is_some());
    assert!(place_on(&board, Piece::L, 0, 0, false).is_some());
}

#[test]
fn place_rejects_overlap_and_leaves_board_unchanged() {
    let board = Board::new();
    let with_o = place_on(&board, Piece::O, 16, 0, false).unwrap();
    // The O piece covers square 16, so any piece that lands there is refused.
    assert!(place_on(&with_o, Piece::Z, 16, 0, false).is_none());
    assert!(place_on(&with_o, Piece::O, 16, 0, false).is_none());
    // The receiving board is a value; the failed attempts left it unchanged,
    // so the same placement still succeeds on the original.
    let again = place_on(&board, Piece::O, 16, 0, false).unwrap();
    assert_eq!(with_o, again);
}

#[test]
fn place_rejects_walk_into_structural_hole() {
    let board = Board::new();
    // From square 20 the N walk steps up into index 13, a structural hole.
    assert!(place_on(&board, Piece::N, 20, 0, false).is_none());
}

#[test]
fn place_rejects_walk_off_the_grid() {
    let board = Board::new();
    // From square 31 the L walk steps down past the bottom edge.
    assert!(place_on(&board, Piece::L, 31, 0, false).is_none());
}

#[test]
fn place_rejects_anchor_on_hole_or_occupied_cell() {
    let board = Board::new();
    let with_o = place_on(&board, Piece::O, 16, 0, false).unwrap();
    // Square 17 is covered by the O piece.
    assert!(place_on(&with_o, Piece::P, 17, 0, false).is_none());
}

#[test]
fn solved_for_reads_the_exposed_date() {
    let board = jan1_solution();
    let date = board.solved_for().unwrap();
    assert_eq!(date.month.index, 0);
    assert_eq!(date.day.index, 14);
}

#[test]
fn solved_for_rejects_more_than_two_empty_cells() {
    assert!(Board::new().solved_for().is_none());
    let partial = place_on(&Board::new(), Piece::O, 16, 0, false).unwrap();
    assert!(partial.solved_for().is_none());
}

#[test]
fn solved_for_rejects_invalid_calendar_date() {
    // A structurally complete tiling whose two uncovered cells read as
    // February 30.
    let board = feb30_tiling();
    assert!(board.solved_for().is_none());
}

#[test]
fn placements_recovers_all_eight_pieces() {
    let board = jan1_solution();
    let placements = board.placements().unwrap();
    assert_eq!(placements.len(), 8);
    let expected_pieces = [
        Piece::L,
        Piece::N,
        Piece::O,
        Piece::P,
        Piece::U,
        Piece::V,
        Piece::Y,
        Piece::Z,
    ];
    for (placement, piece) in placements.iter().zip(expected_pieces.iter()) {
        assert_eq!(placement.piece, *piece);
    }
}

#[test]
fn placements_rejects_partial_boards() {
    assert!(Board::new().placements().is_err());
    let partial = place_on(&Board::new(), Piece::O, 16, 0, false).unwrap();
    assert!(partial.placements().is_err());
}

#[test]
fn boards_compare_by_cells() {
    let a = jan1_solution();
    let b = jan1_solution();
    assert_eq!(a, b);
    assert_ne!(a, feb30_tiling());
    assert_eq!(a.clone(), a);
}

#[test]
fn renderings_are_produced() {
    let board = Board::new();
    let full = board.to_display_string();
    // Every usable cell of the empty board is labelled.
    assert!(full.contains("Jan"));
    assert!(full.contains("Dec"));
    assert!(full.contains("31"));
    let mini = board.to_mini_string();
    assert!(!mini.is_empty());
    // A full solution shows no day labels except the two exposed cells.
    let solved = jan1_solution().to_display_string();
    assert!(solved.contains("Jan"));
    assert!(!solved.contains("Dec"));
}

#[test]
fn status_reads_cells() {
    let board = jan1_solution();
    assert_eq!(board.status(Square::from_index(0).unwrap()), Status::Empty);
    assert_eq!(
        board.status(Square::from_index(16).unwrap()),
        Status::Occupied(Piece::O)
    );
    let date = Date {
        month: Square::from_index(0).unwrap(),
        day: Square::from_index(14).unwrap(),
    };
    assert_eq!(board.solved_for(), Some(date));
}
