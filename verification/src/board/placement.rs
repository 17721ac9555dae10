//! Rotations, and the placement facts recovered from a finished board.

use vstd::prelude::*;

use crate::board::piece::Piece;
use crate::board::square::Square;

verus! {

/// A turn by a multiple of a quarter turn.
#[derive(Copy, Clone, PartialEq, Eq, Structural, Debug)]
pub enum Rotation {
    Zero,
    Quarter,
    Half,
    ThreeQuarter,
}

/// The number of quarter turns of `r`.
pub open spec fn rotation_index(r: Rotation) -> int {
    match r {
        Rotation::Zero => 0,
        Rotation::Quarter => 1,
        Rotation::Half => 2,
        Rotation::ThreeQuarter => 3,
    }
}

/// The rotation of `i % 4` quarter turns.
pub open spec fn rotation_at(i: int) -> Rotation {
    if i % 4 == 0 {
        Rotation::Zero
    } else if i % 4 == 1 {
        Rotation::Quarter
    } else if i % 4 == 2 {
        Rotation::Half
    } else {
        Rotation::ThreeQuarter
    }
}

/// The distinct rotations of a piece with rotational symmetry order `sym`,
/// in trial order: only `Zero` for a fully symmetric shape, two rotations
/// for symmetry order 2, all four otherwise.
pub open spec fn rotations_by_symmetry(sym: int) -> Seq<Rotation> {
    if sym % 4 == 0 {
        seq![Rotation::Zero]
    } else if sym % 4 == 2 {
        seq![Rotation::Zero, Rotation::Quarter]
    } else {
        seq![Rotation::Zero, Rotation::Quarter, Rotation::Half, Rotation::ThreeQuarter]
    }
}

impl Rotation {
    /// The number of quarter turns of this rotation.
    pub fn index(&self) -> (r: u8)
        ensures
            r as int == rotation_index(*self),
    {
        match self {
            Rotation::Zero => 0,
            Rotation::Quarter => 1,
            Rotation::Half => 2,
            Rotation::ThreeQuarter => 3,
        }
    }

    /// The rotation of `amount % 4` quarter turns.
    pub fn from_index(amount: u8) -> (r: Rotation)
        ensures
            r == rotation_at(amount as int),
    {
        match amount % 4 {
            0 => Rotation::Zero,
            1 => Rotation::Quarter,
            2 => Rotation::Half,
            _ => Rotation::ThreeQuarter,
        }
    }

    /// The distinct rotations to try for a piece of rotational symmetry
    /// order `symmetry`, in trial order.
    pub fn all_by_symmetry(symmetry: u8) -> (r: Vec<Rotation>)
        ensures
            r@ == rotations_by_symmetry(symmetry as int),
    {
        let mut r: Vec<Rotation> = Vec::new();
        match symmetry % 4 {
            0 => {
                r.push(Rotation::Zero);
            },
            2 => {
                r.push(Rotation::Zero);
                r.push(Rotation::Quarter);
            },
            _ => {
                r.push(Rotation::Zero);
                r.push(Rotation::Quarter);
                r.push(Rotation::Half);
                r.push(Rotation::ThreeQuarter);
            },
        }
        assert(r@ =~= rotations_by_symmetry(symmetry as int));
        r
    }
}

/// The recovered fact that `piece` was placed with its anchor on `square`
/// under the orientation `(rotation, mirror)`.
#[derive(Copy, Clone, PartialEq, Eq, Structural, Debug)]
pub struct Placement {
    pub piece: Piece,
    pub square: Square,
    pub rotation: Rotation,
    pub mirror: bool,
}

/// Returned when a board's occupancy does not correspond to a structurally
/// valid, fully recoverable placement of all eight pieces.
#[derive(Copy, Clone, PartialEq, Eq, Structural, Debug)]
pub struct PlacementError;

impl PlacementError {
    /// A short description of the failure, for display by callers.
    pub fn message(&self) -> &'static str {
        "Placement does not produce valid board"
    }
}

} // verus!
