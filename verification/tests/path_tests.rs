use a_puzzle_a_day::board::Direction;
use a_puzzle_a_day::board::Square;
use a_puzzle_a_day::board::Path;
use a_puzzle_a_day::board::Piece;
use a_puzzle_a_day::board::Rotation;

fn all_pieces() -> Vec<Piece> {
    Piece::pieces()
}

#[test]
fn orientation_path_lengths_match_cell_counts() {
    // Every orientation's walk is one step shorter than the piece's cell
    // count — except for Y, whose walk revisits one cell and so takes five
    // steps for five cells.
    for piece in all_pieces() {
        let rotations = Rotation::all_by_symmetry(piece.rotational_symmetry());
        let mirrors = if piece.mirror_symmetric() {
            vec![false]
        } else {
            vec![false, true]
        };
        for &mirror in mirrors.iter() {
            for &rotation in rotations.iter() {
                let path = Path::from_orientation(piece, rotation, mirror);
                let len = path.directions().len();
                if piece == Piece::Y {
                    assert_eq!(len, piece.square_count());
                } else {
                    assert_eq!(len, piece.square_count() - 1);
                }
            }
        }
    }
}

#[test]
fn symmetry_data_matches_the_eight_shapes() {
    for piece in all_pieces() {
        let expected_rotations = match piece {
            Piece::O | Piece::Z => 2,
            _ => 4,
        };
        assert_eq!(
            Rotation::all_by_symmetry(piece.rotational_symmetry()).len(),
            expected_rotations
        );
        let expected_mirror = matches!(piece, Piece::O | Piece::U | Piece::V);
        assert_eq!(piece.mirror_symmetric(), expected_mirror);
        let expected_cells = if piece == Piece::O { 6 } else { 5 };
        assert_eq!(piece.square_count(), expected_cells);
    }
}

#[test]
fn mirror_swaps_left_and_right() {
    let path = Path::from_directions(vec![
        Direction::Up,
        Direction::Left,
        Direction::Down,
        Direction::Right,
    ]);
    let mirrored = path.mirror();
    assert_eq!(
        mirrored.directions(),
        &vec![Direction::Up, Direction::Right, Direction::Down, Direction::Left]
    );
    // Mirroring twice restores the walk.
    assert_eq!(mirrored.mirror().directions(), path.directions());
}

#[test]
fn four_quarter_turns_restore_the_walk() {
    let path = Path::from_piece(Piece::N);
    let mut turned = path.clone();
    for _ in 0..4 {
        turned = turned.rotate(Rotation::Quarter);
    }
    assert_eq!(turned.directions(), path.directions());
    // One full-turn rotation equals four quarter turns applied at once.
    let zero = path.rotate(Rotation::Zero);
    assert_eq!(zero.directions(), path.directions());
}

#[test]
fn rotation_turns_each_step() {
    let path = Path::from_directions(vec![Direction::Up, Direction::Right]);
    let turned = path.rotate(Rotation::Quarter);
    assert_eq!(turned.directions(), &vec![Direction::Left, Direction::Up]);
    let half = path.rotate(Rotation::Half);
    assert_eq!(half.directions(), &vec![Direction::Down, Direction::Left]);
}

#[test]
fn squares_step_and_stop_at_edges_and_holes() {
    let squares = Square::squares();
    assert_eq!(squares.len(), 43);
    let jan = Square::from_index(0).unwrap();
    assert!(jan.step(Direction::Up).is_none());
    assert!(jan.step(Direction::Left).is_none());
    assert_eq!(jan.step(Direction::Right).unwrap().index, 1);
    assert_eq!(jan.step(Direction::Down).unwrap().index, 7);
    // Stepping onto a structural hole fails.
    let jun = Square::from_index(5).unwrap();
    assert!(jun.step(Direction::Right).is_none());
    let d7 = Square::from_index(20).unwrap();
    assert!(d7.step(Direction::Up).is_none());
    // The bottom row ends after day 31.
    let d31 = Square::from_index(44).unwrap();
    assert!(d31.step(Direction::Down).is_none());
    assert!(d31.step(Direction::Right).is_none());
    assert!(Square::from_index(6).is_err());
    assert!(Square::from_index(13).is_err());
    assert!(Square::from_index(45).is_err());
}
