use a_puzzle_a_day::board::Board;
use a_puzzle_a_day::board::Path;
use a_puzzle_a_day::board::Piece;
use a_puzzle_a_day::board::Rotation;
use a_puzzle_a_day::board::Square;
use a_puzzle_a_day::board::compact::CompactBoard;

fn codec_place(board: &Board, piece: Piece, square: u8, rotation: u8, mirror: bool) -> Option<Board> {
    let path = Path::from_orientation(piece, Rotation::from_index(rotation), mirror);
    board.place(piece, Square::from_index(square).unwrap(), &path)
}

fn codec_jan1() -> Board {
    let mut board = Board::new();
    let placements: [(Piece, u8, u8, bool); 8] = [
        (Piece::L, 31, 3, true),
        (Piece::N, 33, 1, true),
        (Piece::O, 16, 0, false),
        (Piece::P, 44, 1, false),
        (Piece::U, 40, 1, false),
        (Piece::V, 23, 0, false),
        (Piece::Y, 22, 0, false),
        (Piece::Z, 4, 0, false),
    ];
    for &(piece, square, rotation, mirror) in placements.iter() {
        board = codec_place(&board, piece, square, rotation, mirror).unwrap();
    }
    board
}

/// A record holding only the O piece, placed on square 0 with a half turn
/// and no mirror.
fn single_o_record() -> CompactBoard {
    let mut squares: Vec<Option<Square>> = vec![None; 8];
    let mut rotations: Vec<Rotation> = vec![Rotation::Zero; 8];
    let mirrors: Vec<bool> = vec![false; 8];
    // O is the third piece of the fixed enumeration order L, N, O, P, U, V,
    // Y, Z.
    squares[2] = Some(Square::from_index(0).unwrap());
    rotations[2] = Rotation::Half;
    CompactBoard::new(squares, rotations, mirrors).unwrap()
}

#[test]
fn bytes_of_single_o_record() {
    let bytes = single_o_record().to_bytes();
    // No mirrors: the mirror byte is clear.
    assert_eq!(bytes[0], 0x00);
    // O's data byte: rotation 2 in the top two bits, anchor square 0 below,
    // at the byte position of O's place in the fixed piece order.
    assert_eq!(bytes[3], (2 << 6) | 0);
    assert_eq!(bytes[3], 0x80);
    // Every other piece is unplaced: rotation 0 over the sentinel 0b111111.
    for i in [1, 2, 4, 5, 6, 7, 8] {
        assert_eq!(bytes[i], 0x3f);
    }
}

#[test]
fn bytes_survive_a_round_trip() {
    let bytes = single_o_record().to_bytes();
    let reread = CompactBoard::from_bytes(&bytes);
    assert_eq!(reread.to_bytes(), bytes);
}

#[test]
fn unplaced_sentinel_reads_back_as_unplaced() {
    let record = CompactBoard::from_bytes(&[0x00, 0x3f, 0x3f, 0x10, 0x3f, 0x3f, 0x3f, 0x3f, 0x3f]);
    // Only the O slot decodes to a board with one piece on it; replaying it
    // must succeed and occupy exactly the O cells.
    let board = record.to_board().unwrap();
    let expected = codec_place(&Board::new(), Piece::O, 16, 0, false).unwrap();
    assert_eq!(board, expected);
}

#[test]
fn hole_indices_read_back_as_unplaced() {
    // Anchor bits 6 and 13 name structural holes, so they read as "not
    // placed" and decode to the empty board.
    let record = CompactBoard::from_bytes(&[0x00, 6, 13, 0x3f, 0x3f, 0x3f, 0x3f, 0x3f, 0x3f]);
    assert_eq!(record.to_board().unwrap(), Board::new());
}

#[test]
fn mirror_bits_are_most_significant_first() {
    let mut squares: Vec<Option<Square>> = vec![None; 8];
    let rotations: Vec<Rotation> = vec![Rotation::Zero; 8];
    let mut mirrors: Vec<bool> = vec![false; 8];
    // Mirror the first piece (L) and the last (Z).
    squares[0] = Some(Square::from_index(3).unwrap());
    mirrors[0] = true;
    mirrors[7] = true;
    let bytes = CompactBoard::new(squares, rotations, mirrors).unwrap().to_bytes();
    assert_eq!(bytes[0], 0b1000_0001);
}

#[test]
fn encode_then_decode_returns_an_equal_board() {
    let board = codec_jan1();
    let compact = CompactBoard::from_board(&board).unwrap();
    let decoded = compact.to_board().unwrap();
    assert_eq!(decoded, board);
}

#[test]
fn encode_then_decode_survives_the_byte_form() {
    let board = codec_jan1();
    let bytes = CompactBoard::from_board(&board).unwrap().to_bytes();
    let decoded = CompactBoard::from_bytes(&bytes).to_board().unwrap();
    assert_eq!(decoded, board);
}

#[test]
fn encode_rejects_incomplete_boards() {
    assert!(CompactBoard::from_board(&Board::new()).is_err());
    let partial = codec_place(&Board::new(), Piece::O, 16, 0, false).unwrap();
    assert!(CompactBoard::from_board(&partial).is_err());
}

#[test]
fn decode_rejects_overlapping_placements() {
    let mut squares: Vec<Option<Square>> = vec![None; 8];
    let rotations: Vec<Rotation> = vec![Rotation::Zero; 8];
    let mirrors: Vec<bool> = vec![false; 8];
    // O and Z both anchored on square 16 overlap there.
    squares[2] = Some(Square::from_index(16).unwrap());
    squares[7] = Some(Square::from_index(16).unwrap());
    let record = CompactBoard::new(squares, rotations, mirrors).unwrap();
    assert!(record.to_board().is_err());
}

#[test]
fn record_construction_validates_slot_counts_and_squares() {
    assert!(CompactBoard::new(vec![None; 7], vec![Rotation::Zero; 8], vec![false; 8]).is_none());
    let mut squares: Vec<Option<Square>> = vec![None; 8];
    squares[0] = Some(Square { index: 6 });
    assert!(CompactBoard::new(squares, vec![Rotation::Zero; 8], vec![false; 8]).is_none());
}
