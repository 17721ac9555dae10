//! The eight fixed pieces, their symmetry data and canonical walks.

use vstd::prelude::*;

use crate::board::path::Direction;
use crate::board::path::col_delta;
use crate::board::path::row_delta;

verus! {

/// One of the eight fixed pieces, named after the letter its shape resembles.
#[derive(Copy, Clone, PartialEq, Eq, Structural, Debug)]
pub enum Piece {
    L,
    N,
    O,
    P,
    U,
    V,
    Y,
    Z,
}

/// The position of `p` in the fixed piece enumeration order `L, N, O, P, U,
/// V, Y, Z`, which the compact codec follows byte by byte.
pub open spec fn piece_index(p: Piece) -> int {
    match p {
        Piece::L => 0,
        Piece::N => 1,
        Piece::O => 2,
        Piece::P => 3,
        Piece::U => 4,
        Piece::V => 5,
        Piece::Y => 6,
        Piece::Z => 7,
    }
}

/// The piece at position `i` of the fixed enumeration order.
pub open spec fn piece_at(i: int) -> Piece {
    if i == 0 {
        Piece::L
    } else if i == 1 {
        Piece::N
    } else if i == 2 {
        Piece::O
    } else if i == 3 {
        Piece::P
    } else if i == 4 {
        Piece::U
    } else if i == 5 {
        Piece::V
    } else if i == 6 {
        Piece::Y
    } else {
        Piece::Z
    }
}

/// The rotational symmetry order of `p`: 2 for the two shapes a half turn
/// maps to themselves, 1 otherwise.
pub open spec fn rotational_symmetry_spec(p: Piece) -> int {
    match p {
        Piece::O => 2,
        Piece::Z => 2,
        _ => 1,
    }
}

/// Whether mirroring `p` never yields a new orientation.
pub open spec fn mirror_symmetric_spec(p: Piece) -> bool {
    match p {
        Piece::O => true,
        Piece::U => true,
        Piece::V => true,
        _ => false,
    }
}

/// How many cells `p` covers: 6 for the O piece, 5 for every other.
pub open spec fn square_count_spec(p: Piece) -> int {
    match p {
        Piece::O => 6,
        _ => 5,
    }
}

/// The canonical walk of `p`, before any rotation or mirror. The walk of the
/// Y piece revisits one cell, so its five distinct cells take five steps.
pub open spec fn canonical_dirs(p: Piece) -> Seq<Direction> {
    match p {
        Piece::L => seq![Direction::Down, Direction::Down, Direction::Down, Direction::Right],
        Piece::N => seq![Direction::Up, Direction::Right, Direction::Up, Direction::Up],
        Piece::O => seq![
            Direction::Up,
            Direction::Up,
            Direction::Right,
            Direction::Down,
            Direction::Down,
        ],
        Piece::P => seq![Direction::Up, Direction::Up, Direction::Right, Direction::Down],
        Piece::U => seq![Direction::Down, Direction::Right, Direction::Right, Direction::Up],
        Piece::V => seq![Direction::Right, Direction::Right, Direction::Up, Direction::Up],
        Piece::Y => seq![
            Direction::Up,
            Direction::Up,
            Direction::Up,
            Direction::Down,
            Direction::Left,
        ],
        Piece::Z => seq![Direction::Right, Direction::Down, Direction::Down, Direction::Right],
    }
}

impl Piece {
    /// All eight pieces, in the fixed enumeration order.
    pub fn pieces() -> (r: Vec<Piece>)
        ensures
            r@.len() == 8,
            forall|i: int| 0 <= i < 8 ==> #[trigger] r@[i] == piece_at(i),
    {
        let mut r: Vec<Piece> = Vec::new();
        r.push(Piece::L);
        r.push(Piece::N);
        r.push(Piece::O);
        r.push(Piece::P);
        r.push(Piece::U);
        r.push(Piece::V);
        r.push(Piece::Y);
        r.push(Piece::Z);
        r
    }

    /// The position of this piece in the fixed enumeration order.
    pub fn index(&self) -> (r: u8)
        ensures
            r as int == piece_index(*self),
    {
        match self {
            Piece::L => 0,
            Piece::N => 1,
            Piece::O => 2,
            Piece::P => 3,
            Piece::U => 4,
            Piece::V => 5,
            Piece::Y => 6,
            Piece::Z => 7,
        }
    }

    /// The rotational symmetry order: 2 means only two rotations are
    /// distinct, 1 means all four are.
    pub fn rotational_symmetry(&self) -> (r: u8)
        ensures
            r as int == rotational_symmetry_spec(*self),
    {
        match self {
            Piece::O | Piece::Z => 2,
            _ => 1,
        }
    }

    /// Whether mirroring never yields a new orientation of this piece.
    pub fn mirror_symmetric(&self) -> (r: bool)
        ensures
            r == mirror_symmetric_spec(*self),
    {
        match self {
            Piece::O | Piece::U | Piece::V => true,
            _ => false,
        }
    }

    /// How many cells this piece covers.
    pub fn square_count(&self) -> (r: usize)
        ensures
            r as int == square_count_spec(*self),
    {
        match self {
            Piece::O => 6,
            _ => 5,
        }
    }
}


/// The prefix offsets of each canonical walk are pairwise distinct — each
/// walk covers as many cells as its piece — except that the Y walk stands
/// on the same cell after two and after four steps.
pub proof fn lemma_canonical_deltas(p: Piece)
    ensures
        forall|j: int, k: int|
            #![trigger row_delta(canonical_dirs(p), j), row_delta(canonical_dirs(p), k)]
            0 <= j < k <= canonical_dirs(p).len() && !(p == Piece::Y && j == 2 && k == 4)
                ==> row_delta(canonical_dirs(p), j) != row_delta(canonical_dirs(p), k)
                || col_delta(canonical_dirs(p), j) != col_delta(canonical_dirs(p), k),
        p == Piece::Y ==> row_delta(canonical_dirs(p), 2) == row_delta(canonical_dirs(p), 4)
            && col_delta(canonical_dirs(p), 2) == col_delta(canonical_dirs(p), 4),
{
    reveal_with_fuel(row_delta, 7);
    reveal_with_fuel(col_delta, 7);
    let cd = canonical_dirs(p);
    match p {
        Piece::L => {
            assert(row_delta(cd, 0) == 0 && col_delta(cd, 0) == 0
                && row_delta(cd, 1) == 1 && col_delta(cd, 1) == 0
                && row_delta(cd, 2) == 2 && col_delta(cd, 2) == 0
                && row_delta(cd, 3) == 3 && col_delta(cd, 3) == 0
                && row_delta(cd, 4) == 3 && col_delta(cd, 4) == 1);
        },
        Piece::N => {
            assert(row_delta(cd, 0) == 0 && col_delta(cd, 0) == 0
                && row_delta(cd, 1) == -1 && col_delta(cd, 1) == 0
                && row_delta(cd, 2) == -1 && col_delta(cd, 2) == 1
                && row_delta(cd, 3) == -2 && col_delta(cd, 3) == 1
                && row_delta(cd, 4) == -3 && col_delta(cd, 4) == 1);
        },
        Piece::O => {
            assert(row_delta(cd, 0) == 0 && col_delta(cd, 0) == 0
                && row_delta(cd, 1) == -1 && col_delta(cd, 1) == 0
                && row_delta(cd, 2) == -2 && col_delta(cd, 2) == 0
                && row_delta(cd, 3) == -2 && col_delta(cd, 3) == 1
                && row_delta(cd, 4) == -1 && col_delta(cd, 4) == 1
                && row_delta(cd, 5) == 0 && col_delta(cd, 5) == 1);
        },
        Piece::P => {
            assert(row_delta(cd, 0) == 0 && col_delta(cd, 0) == 0
                && row_delta(cd, 1) == -1 && col_delta(cd, 1) == 0
                && row_delta(cd, 2) == -2 && col_delta(cd, 2) == 0
                && row_delta(cd, 3) == -2 && col_delta(cd, 3) == 1
                && row_delta(cd, 4) == -1 && col_delta(cd, 4) == 1);
        },
        Piece::U => {
            assert(row_delta(cd, 0) == 0 && col_delta(cd, 0) == 0
                && row_delta(cd, 1) == 1 && col_delta(cd, 1) == 0
                && row_delta(cd, 2) == 1 && col_delta(cd, 2) == 1
                && row_delta(cd, 3) == 1 && col_delta(cd, 3) == 2
                && row_delta(cd, 4) == 0 && col_delta(cd, 4) == 2);
        },
        Piece::V => {
            assert(row_delta(cd, 0) == 0 && col_delta(cd, 0) == 0
                && row_delta(cd, 1) == 0 && col_delta(cd, 1) == 1
                && row_delta(cd, 2) == 0 && col_delta(cd, 2) == 2
                && row_delta(cd, 3) == -1 && col_delta(cd, 3) == 2
                && row_delta(cd, 4) == -2 && col_delta(cd, 4) == 2);
        },
        Piece::Y => {
            assert(row_delta(cd, 0) == 0 && col_delta(cd, 0) == 0
                && row_delta(cd, 1) == -1 && col_delta(cd, 1) == 0
                && row_delta(cd, 2) == -2 && col_delta(cd, 2) == 0
                && row_delta(cd, 3) == -3 && col_delta(cd, 3) == 0
                && row_delta(cd, 4) == -2 && col_delta(cd, 4) == 0
                && row_delta(cd, 5) == -2 && col_delta(cd, 5) == -1);
        },
        Piece::Z => {
            assert(row_delta(cd, 0) == 0 && col_delta(cd, 0) == 0
                && row_delta(cd, 1) == 0 && col_delta(cd, 1) == 1
                && row_delta(cd, 2) == 1 && col_delta(cd, 2) == 1
                && row_delta(cd, 3) == 2 && col_delta(cd, 3) == 1
                && row_delta(cd, 4) == 2 && col_delta(cd, 4) == 2);
        },
    }
}

} // verus!
