use a_puzzle_a_day::board::Board;
use a_puzzle_a_day::board::Date;
use a_puzzle_a_day::board::Path;
use a_puzzle_a_day::board::Piece;
use a_puzzle_a_day::board::Rotation;
use a_puzzle_a_day::board::Square;
use a_puzzle_a_day::board::compact::CompactBoard;
use a_puzzle_a_day::solutions::DataError;
use a_puzzle_a_day::solutions::classify;
use a_puzzle_a_day::solutions::generate;
use a_puzzle_a_day::solutions::read_boards;

fn store_place(board: &Board, piece: Piece, square: u8, rotation: u8, mirror: bool) -> Option<Board> {
    let path = Path::from_orientation(piece, Rotation::from_index(rotation), mirror);
    board.place(piece, Square::from_index(square).unwrap(), &path)
}

fn build(placements: &[(Piece, u8, u8, bool)]) -> Board {
    let mut board = Board::new();
    for &(piece, square, rotation, mirror) in placements {
        board = store_place(&board, piece, square, rotation, mirror).unwrap();
    }
    board
}

fn store_jan1() -> Board {
    build(&[
        (Piece::L, 31, 3, true),
        (Piece::N, 33, 1, true),
        (Piece::O, 16, 0, false),
        (Piece::P, 44, 1, false),
        (Piece::U, 40, 1, false),
        (Piece::V, 23, 0, false),
        (Piece::Y, 22, 0, false),
        (Piece::Z, 4, 0, false),
    ])
}

fn store_feb30() -> Board {
    build(&[
        (Piece::L, 24, 3, false),
        (Piece::N, 33, 0, true),
        (Piece::O, 16, 0, false),
        (Piece::P, 0, 2, true),
        (Piece::U, 44, 2, false),
        (Piece::V, 39, 0, false),
        (Piece::Y, 29, 3, true),
        (Piece::Z, 4, 0, false),
    ])
}

#[test]
fn read_boards_accepts_empty_input() {
    let boards = read_boards(&[]).unwrap();
    assert_eq!(boards.len(), 0);
}

#[test]
fn read_boards_rejects_partial_records() {
    let r = read_boards(&[0x00, 0x3f, 0x3f, 0x3f, 0x3f]);
    assert!(matches!(r, Err(DataError::IoError(_))));
    // A whole record followed by a short tail is refused the same way.
    let mut bytes = CompactBoard::from_board(&store_jan1()).unwrap().to_bytes().to_vec();
    bytes.push(0x00);
    assert!(matches!(read_boards(&bytes), Err(DataError::IoError(_))));
}

#[test]
fn read_boards_rejects_inconsistent_records() {
    // O and Z both anchored on square 16 cannot be replayed.
    let mut squares: Vec<Option<Square>> = vec![None; 8];
    squares[2] = Some(Square::from_index(16).unwrap());
    squares[7] = Some(Square::from_index(16).unwrap());
    let bad = CompactBoard::new(squares, vec![Rotation::Zero; 8], vec![false; 8])
        .unwrap()
        .to_bytes();
    assert!(matches!(read_boards(&bad), Err(DataError::BoardError)));
}

#[test]
fn read_boards_round_trips_stored_solutions() {
    let a = store_jan1();
    let b = store_feb30();
    let mut bytes: Vec<u8> = Vec::new();
    bytes.extend_from_slice(&CompactBoard::from_board(&a).unwrap().to_bytes());
    bytes.extend_from_slice(&CompactBoard::from_board(&b).unwrap().to_bytes());
    let boards = read_boards(&bytes).unwrap();
    assert_eq!(boards.len(), 2);
    assert_eq!(boards[0], a);
    assert_eq!(boards[1], b);
}

#[test]
fn classify_groups_by_solved_date() {
    let jan1 = store_jan1();
    let map = classify(vec![jan1.clone(), store_feb30(), jan1.clone()]);
    let date = Date {
        month: Square::from_index(0).unwrap(),
        day: Square::from_index(14).unwrap(),
    };
    let group = map.get(date).unwrap();
    assert_eq!(group.len(), 2);
    assert_eq!(group[0], jan1);
    assert_eq!(group[1], jan1);
}

#[test]
fn classify_partitions_the_solvable_boards() {
    // Three inputs: two solve January 1, one tiling exposes no valid date
    // and is dropped. The group sizes sum to the number of solvable boards.
    let jan1 = store_jan1();
    let map = classify(vec![store_feb30(), jan1.clone(), jan1.clone()]);
    assert_eq!(map.len(), 1);
    let dates = map.dates();
    let mut total = 0;
    for date in dates.iter() {
        total += map.get(*date).unwrap().len();
    }
    assert_eq!(total, 2);
    let feb30 = Date {
        month: Square::from_index(1).unwrap(),
        day: Square::from_index(43).unwrap(),
    };
    assert!(map.get(feb30).is_none());
}

#[test]
fn classify_of_unsolved_boards_is_empty() {
    let map = classify(vec![Board::new()]);
    assert_eq!(map.len(), 0);
}

#[test]
fn generate_with_no_pieces_returns_the_starting_board() {
    let boards = generate(Board::new(), vec![]);
    assert_eq!(boards.len(), 1);
    assert_eq!(boards[0], Board::new());
}

#[test]
fn generate_counts_single_piece_placements() {
    // Every legal (orientation, anchor) pair of one piece on the empty
    // board: the O piece has 2 distinct orientations and 48 placements, the
    // Z piece 4 orientations and 82 placements.
    assert_eq!(generate(Board::new(), vec![Piece::O]).len(), 48);
    assert_eq!(generate(Board::new(), vec![Piece::Z]).len(), 82);
}

#[test]
fn generate_finds_no_room_on_a_finished_board() {
    // A full solution leaves two uncovered cells: no five-cell piece fits.
    let boards = generate(store_jan1(), vec![Piece::L]);
    assert_eq!(boards.len(), 0);
}

#[test]
fn generate_stages_compose() {
    // Two stages: every Z placement on every O placement.
    let one = generate(Board::new(), vec![Piece::O]);
    let two = generate(Board::new(), vec![Piece::O, Piece::Z]);
    let mut expected = 0;
    for board in one.iter() {
        expected += generate(board.clone(), vec![Piece::Z]).len();
    }
    assert_eq!(two.len(), expected);
}
