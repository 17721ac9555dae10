//! The puzzle board: a 45-cell grid with two structural holes, filled one
//! piece at a time, never mutated in place.

pub mod path;
pub mod square;
pub mod piece;
pub mod placement;
pub mod compact;

pub use self::path::Direction;
pub use self::path::Path;
pub use self::square::Date;
pub use self::square::IndexError;
pub use self::square::Square;
pub use self::piece::Piece;
pub use self::placement::Placement;
pub use self::placement::PlacementError;
pub use self::placement::Rotation;

use vstd::prelude::*;
use vstd::pervasive::VecAdditionalExecFns;

use crate::board::path::orient_dirs;
use crate::board::piece::mirror_symmetric_spec;
use crate::board::piece::piece_at;
use crate::board::piece::piece_index;
use crate::board::piece::rotational_symmetry_spec;
use crate::board::piece::square_count_spec;
use crate::board::placement::rotation_index;
use crate::board::placement::rotations_by_symmetry;
use crate::board::square::date_ok;
use crate::board::square::square_ok;
use crate::board::square::step_index;

verus! {

/// What one cell of a board holds.
#[derive(Copy, Clone, PartialEq, Eq, Structural, Debug)]
pub enum Status {
    /// The cell is uncovered.
    Empty,
    /// The cell is one of the two structural holes and can never be covered.
    Nonexistent,
    /// The cell is covered by the named piece.
    Occupied(Piece),
}

/// The cell states of the canonical starting board: everything uncovered but
/// the two structural holes.
pub open spec fn default_cells() -> Seq<Status> {
    Seq::new(45, |i: int| if i == 6 || i == 13 { Status::Nonexistent } else { Status::Empty })
}

/// A well-shaped cell sequence: 45 cells whose `Nonexistent` entries are
/// exactly the two structural holes.
pub open spec fn holes_ok(cells: Seq<Status>) -> bool {
    &&& cells.len() == 45
    &&& forall|i: int| 0 <= i < 45 ==> ((#[trigger] cells[i]) is Nonexistent <==> (i == 6 || i == 13))
}

/// The square reached after `k` steps of `path`, walking from `start`;
/// `None` once any step leaves the grid.
pub open spec fn walk_to(start: int, path: Seq<Direction>, k: int) -> Option<int>
    decreases k,
{
    if k <= 0 {
        Some(start)
    } else {
        match walk_to(start, path, k - 1) {
            None => None,
            Some(p) => step_index(p, path[k - 1]),
        }
    }
}

/// Whether some prefix of `path` (of at most `bound` steps) walked from
/// `start` lands on square `idx`.
pub open spec fn visits_upto(start: int, path: Seq<Direction>, bound: int, idx: int) -> bool {
    exists|k: int| 0 <= k <= bound && walk_to(start, path, k) == Some(idx)
}

/// Whether the walk of `path` from `start` lands on square `idx`.
pub open spec fn visits(start: int, path: Seq<Direction>, idx: int) -> bool {
    visits_upto(start, path, path.len() as int, idx)
}

/// Whether a piece walking `path` from `start` can be placed on `cells`:
/// every step stays on the grid and every cell it lands on is uncovered.
pub open spec fn can_place(cells: Seq<Status>, start: int, path: Seq<Direction>) -> bool {
    forall|k: int|
        0 <= k <= path.len() ==> (#[trigger] walk_to(start, path, k)) is Some && cells[walk_to(
            start,
            path,
            k,
        )->Some_0] is Empty
}

/// `cells` with every square the walk lands on marked `Occupied(piece)`.
pub open spec fn place_cells(
    cells: Seq<Status>,
    piece: Piece,
    start: int,
    path: Seq<Direction>,
) -> Seq<Status> {
    Seq::new(
        cells.len(),
        |i: int|
            if visits(start, path, i) {
                Status::Occupied(piece)
            } else {
                cells[i]
            },
    )
}

/// The immutable-value state of the 45-cell grid. Every mutation returns a
/// new board; a board always has exactly the two structural holes.
#[derive(Debug)]
pub struct Board {
    cells: Vec<Status>,
}

impl View for Board {
    type V = Seq<Status>;

    closed spec fn view(&self) -> Seq<Status> {
        self.cells@
    }
}

impl Board {
    /// Holds of every board: 45 cells whose structural holes are exactly
    /// indices 6 and 13. Established by every constructor and usable through
    /// `use_type_invariant`.
    #[verifier::type_invariant]
    pub open spec fn wf(self) -> bool {
        holes_ok(self@)
    }

    /// The canonical starting board: all cells uncovered except the two
    /// structural holes.
    pub fn new() -> (r: Board)
        ensures
            r@ == default_cells(),
    {
        let mut cells: Vec<Status> = Vec::new();
        let mut i: usize = 0;
        while i < 45
            invariant
                i <= 45,
                cells@.len() == i,
                forall|j: int| 0 <= j < i ==> #[trigger] cells@[j] == default_cells()[j],
            decreases 45 - i,
        {
            if i == 6 || i == 13 {
                cells.push(Status::Nonexistent);
            } else {
                cells.push(Status::Empty);
            }
            i = i + 1;
        }
        assert(cells@ =~= default_cells());
        Board { cells }
    }

    fn copy_cells(&self) -> (r: Vec<Status>)
        ensures
            r@ == self@,
    {
        let mut r: Vec<Status> = Vec::new();
        let mut i: usize = 0;
        while i < self.cells.len()
            invariant
                i <= self.cells@.len(),
                r@.len() == i,
                forall|j: int| 0 <= j < i ==> #[trigger] r@[j] == self.cells@[j],
            decreases self.cells@.len() - i,
        {
            r.push(self.cells[i]);
            i = i + 1;
        }
        assert(r@ =~= self@);
        r
    }

    /// The status of the cell at `square`.
    pub fn status(&self, square: Square) -> (r: Status)
        requires
            square.valid(),
        ensures
            r == self@[square.index as int],
    {
        proof {
            use_type_invariant(self);
        }
        self.cells[square.index as usize]
    }

    /// Marks `start` and every square the walk of `path` lands on as
    /// occupied by `piece`, returning the new board; returns `None` — and
    /// leaves the receiver untouched — the instant a step leaves the grid or
    /// lands on a cell that is not uncovered.
    pub fn place(&self, piece: Piece, start: Square, path: &Path) -> (r: Option<Board>)
        requires
            start.valid(),
        ensures
            match r {
                Some(b) => can_place(self@, start.index as int, path@) && b@ == place_cells(
                    self@,
                    piece,
                    start.index as int,
                    path@,
                ),
                None => !can_place(self@, start.index as int, path@),
            },
    {
        proof {
            use_type_invariant(self);
        }
        let ghost s0 = start.index as int;
        let ghost p = path@;
        let mut status = self.copy_cells();

        if !matches!(self.cells[start.index as usize], Status::Empty) {
            assert(!can_place(self@, s0, p)) by {
                assert(walk_to(s0, p, 0) == Some(s0));
            }
            return None;
        }
        status.set(start.index as usize, Status::Occupied(piece));

        let dirs = path.directions();
        let mut cur = start;
        let mut k: usize = 0;
        assert forall|i: int| 0 <= i < 45 implies #[trigger] status@[i] == (if visits_upto(
            s0,
            p,
            0,
            i,
        ) {
            Status::Occupied(piece)
        } else {
            self@[i]
        }) by {
            if i == s0 {
                assert(walk_to(s0, p, 0) == Some(s0));
            } else {
                if visits_upto(s0, p, 0, i) {
                    let k0 = choose|k0: int| 0 <= k0 <= 0 && walk_to(s0, p, k0) == Some(i);
                    assert(false);
                }
            }
        }
        while k < dirs.len()
            invariant
                p == path@,
                s0 == start.index as int,
                k <= p.len(),
                dirs@ == p,
                holes_ok(self@),
                cur.valid(),
                walk_to(s0, p, k as int) == Some(cur.index as int),
                forall|j: int|
                    0 <= j <= k ==> (#[trigger] walk_to(s0, p, j)) is Some && self@[walk_to(
                        s0,
                        p,
                        j,
                    )->Some_0] is Empty,
                status@.len() == 45,
                forall|i: int|
                    0 <= i < 45 ==> #[trigger] status@[i] == (if visits_upto(s0, p, k as int, i) {
                        Status::Occupied(piece)
                    } else {
                        self@[i]
                    }),
            decreases p.len() - k,
        {
            let dir = dirs[k];
            let next = match cur.step(dir) {
                Some(sq) => sq,
                None => {
                    assert(walk_to(s0, p, k + 1) is None);
                    assert(!can_place(self@, s0, p));
                    return None;
                },
            };
            assert(walk_to(s0, p, k + 1) == Some(next.index as int));
            if !matches!(self.cells[next.index as usize], Status::Empty) {
                assert(!can_place(self@, s0, p));
                return None;
            }
            status.set(next.index as usize, Status::Occupied(piece));
            proof {
                let ghost kk = k + 1;
                assert forall|i: int| 0 <= i < 45 implies #[trigger] status@[i] == (if visits_upto(
                    s0,
                    p,
                    kk,
                    i,
                ) {
                    Status::Occupied(piece)
                } else {
                    self@[i]
                }) by {
                    if i == next.index as int {
                        assert(visits_upto(s0, p, kk, i));
                    } else {
                        if visits_upto(s0, p, kk, i) {
                            let j = choose|j: int| 0 <= j <= kk && walk_to(s0, p, j) == Some(i);
                            assert(j <= k as int);
                            assert(visits_upto(s0, p, k as int, i));
                        } else {
                            assert(!visits_upto(s0, p, k as int, i));
                        }
                    }
                }
            }
            cur = next;
            k = k + 1;
        }
        assert(can_place(self@, s0, p));
        assert forall|i: int| 0 <= i < 45 implies ((#[trigger] status@[i]) is Nonexistent <==> (i
            == 6 || i == 13)) by {
            if visits_upto(s0, p, p.len() as int, i) {
                let j = choose|j: int| 0 <= j <= p.len() && walk_to(s0, p, j) == Some(i);
                assert(self@[i] is Empty);
            }
        }
        let b = Board { cells: status };
        assert(b@ =~= place_cells(self@, piece, s0, p));
        Some(b)
    }
}

/// The indices of the uncovered cells among the first `n` cells, in
/// ascending order.
pub open spec fn empties_prefix(cells: Seq<Status>, n: int) -> Seq<int>
    decreases n,
{
    if n <= 0 {
        Seq::empty()
    } else {
        let r = empties_prefix(cells, n - 1);
        if cells[n - 1] is Empty {
            r.push(n - 1)
        } else {
            r
        }
    }
}

/// The date a finished board is a solution for: defined exactly when the
/// board has two uncovered cells and their indices, read as a month square
/// and a day square, form a valid calendar date.
pub open spec fn board_date(cells: Seq<Status>) -> Option<Date> {
    let es = empties_prefix(cells, 45);
    if es.len() == 2 && date_ok(es[0], es[1]) {
        Some(
            Date {
                month: Square { index: es[0] as u8 },
                day: Square { index: es[1] as u8 },
            },
        )
    } else {
        None
    }
}

/// Whether `piece`, anchored on `start` under the orientation `(rot, mir)`,
/// covers only cells occupied by that same piece.
pub open spec fn fits(
    cells: Seq<Status>,
    piece: Piece,
    start: int,
    rot: Rotation,
    mir: bool,
) -> bool {
    let path = orient_dirs(piece, rotation_index(rot) as nat, mir);
    forall|k: int|
        0 <= k <= path.len() ==> (#[trigger] walk_to(start, path, k)) is Some && cells[walk_to(
            start,
            path,
            k,
        )->Some_0] == Status::Occupied(piece)
}

/// The orientation candidates of `p` in the fixed trial order: mirror off
/// first, then (for pieces that are not mirror-symmetric) mirror on, each
/// with the symmetry-reduced rotations in order.
pub open spec fn candidate_orients(p: Piece) -> Seq<(Rotation, bool)> {
    let rots = rotations_by_symmetry(rotational_symmetry_spec(p));
    let plain = rots.map_values(|r: Rotation| (r, false));
    if mirror_symmetric_spec(p) {
        plain
    } else {
        plain + rots.map_values(|r: Rotation| (r, true))
    }
}

/// The first candidate orientation of `cands` under which `piece`, anchored
/// on `start`, covers only its own cells.
pub open spec fn first_fit(
    cells: Seq<Status>,
    piece: Piece,
    start: int,
    cands: Seq<(Rotation, bool)>,
) -> Option<(Rotation, bool)>
    decreases cands.len(),
{
    if cands.len() == 0 {
        None
    } else if fits(cells, piece, start, cands[0].0, cands[0].1) {
        Some(cands[0])
    } else {
        first_fit(cells, piece, start, cands.drop_first())
    }
}

/// Canonical orientation recovery at an anchor: the first orientation in
/// trial order whose walk from `start` stays on cells occupied by `piece`,
/// provided `start` itself is occupied by `piece`.
pub open spec fn check_placement_spec(cells: Seq<Status>, piece: Piece, start: int) -> Option<
    (Rotation, bool),
> {
    if cells[start] == Status::Occupied(piece) {
        first_fit(cells, piece, start, candidate_orients(piece))
    } else {
        None
    }
}

/// How many of the first `n` cells are occupied by `piece`.
pub open spec fn count_piece(cells: Seq<Status>, piece: Piece, n: int) -> int
    decreases n,
{
    if n <= 0 {
        0
    } else {
        count_piece(cells, piece, n - 1) + if cells[n - 1] == Status::Occupied(piece) {
            1int
        } else {
            0int
        }
    }
}

/// The placement of `piece` recovered at the first anchor index at or after
/// `i` where orientation recovery succeeds.
pub open spec fn recovered_from(cells: Seq<Status>, piece: Piece, i: int) -> Option<Placement>
    decreases 45 - i,
{
    if i >= 45 {
        None
    } else if check_placement_spec(cells, piece, i) is Some {
        Some(
            Placement {
                piece,
                square: Square { index: i as u8 },
                rotation: check_placement_spec(cells, piece, i)->Some_0.0,
                mirror: check_placement_spec(cells, piece, i)->Some_0.1,
            },
        )
    } else {
        recovered_from(cells, piece, i + 1)
    }
}

/// The placement of `piece` recovered at the first possible anchor, in
/// ascending index order.
pub open spec fn recovered(cells: Seq<Status>, piece: Piece) -> Option<Placement> {
    recovered_from(cells, piece, 0)
}

/// Whether every piece covers exactly its own number of cells and has a
/// recoverable placement: the condition under which `Board::placements`
/// succeeds.
pub open spec fn fully_placed(cells: Seq<Status>) -> bool {
    forall|p: Piece|
        #![trigger recovered(cells, p)]
        count_piece(cells, p, 45) == square_count_spec(p) && recovered(cells, p) is Some
}

impl Board {
    /// The date this board solves, if it has exactly two uncovered cells
    /// whose indices form a valid calendar date; `None` on any third
    /// uncovered cell, out-of-range index or invalid date.
    pub fn solved_for(&self) -> (r: Option<Date>)
        ensures
            r == board_date(self@),
    {
        proof {
            use_type_invariant(self);
        }
        let mut count: usize = 0;
        let mut first: u8 = 0;
        let mut second: u8 = 0;
        let mut i: usize = 0;
        while i < 45
            invariant
                i <= 45,
                holes_ok(self@),
                count <= i,
                count == empties_prefix(self@, i as int).len(),
                count >= 1 ==> first as int == empties_prefix(self@, i as int)[0] && first < 45,
                count >= 2 ==> second as int == empties_prefix(self@, i as int)[1] && second < 45,
            decreases 45 - i,
        {
            if matches!(self.cells[i], Status::Empty) {
                count = count + 1;
                if count == 1 {
                    first = i as u8;
                } else if count == 2 {
                    second = i as u8;
                }
            }
            i = i + 1;
        }
        if count != 2 {
            return None;
        }
        let date = Date { month: Square { index: first }, day: Square { index: second } };
        if date.is_valid() {
            Some(date)
        } else {
            None
        }
    }

    fn path_fits(&self, piece: Piece, start: Square, rotation: Rotation, mirror: bool) -> (r:
        bool)
        requires
            start.valid(),
        ensures
            r == fits(self@, piece, start.index as int, rotation, mirror),
    {
        proof {
            use_type_invariant(self);
        }
        let ghost s0 = start.index as int;
        let ghost op = orient_dirs(piece, rotation_index(rotation) as nat, mirror);
        if !status_eq(self.cells[start.index as usize], Status::Occupied(piece)) {
            assert(walk_to(s0, op, 0) == Some(s0));
            assert(!fits(self@, piece, s0, rotation, mirror));
            return false;
        }
        let path = Path::from_orientation(piece, rotation, mirror);
        let dirs = path.directions();
        let mut cur = start;
        let mut k: usize = 0;
        while k < dirs.len()
            invariant
                s0 == start.index as int,
                op == orient_dirs(piece, rotation_index(rotation) as nat, mirror),
                dirs@ == op,
                k <= op.len(),
                cur.valid(),
                walk_to(s0, op, k as int) == Some(cur.index as int),
                holes_ok(self@),
                forall|j: int|
                    0 <= j <= k ==> (#[trigger] walk_to(s0, op, j)) is Some && self@[walk_to(
                        s0,
                        op,
                        j,
                    )->Some_0] == Status::Occupied(piece),
            decreases op.len() - k,
        {
            let next = match cur.step(dirs[k]) {
                Some(sq) => sq,
                None => {
                    assert(walk_to(s0, op, k + 1) is None);
                    assert(!fits(self@, piece, s0, rotation, mirror));
                    return false;
                },
            };
            assert(walk_to(s0, op, k + 1) == Some(next.index as int));
            if !status_eq(self.cells[next.index as usize], Status::Occupied(piece)) {
                assert(!fits(self@, piece, s0, rotation, mirror));
                return false;
            }
            cur = next;
            k = k + 1;
        }
        true
    }

    fn check_placement(&self, piece: Piece, start: Square) -> (r: Option<(Rotation, bool)>)
        requires
            start.valid(),
        ensures
            r == check_placement_spec(self@, piece, start.index as int),
    {
        proof {
            use_type_invariant(self);
        }
        let ghost s0 = start.index as int;
        if !status_eq(self.cells[start.index as usize], Status::Occupied(piece)) {
            return None;
        }
        let cands = candidate_list(piece);
        proof {
            assert(cands@.skip(0) =~= cands@);
        }
        let mut c: usize = 0;
        while c < cands.len()
            invariant
                s0 == start.index as int,
                start.valid(),
                self@[s0] == Status::Occupied(piece),
                cands@ == candidate_orients(piece),
                c <= cands@.len(),
                first_fit(self@, piece, s0, candidate_orients(piece)) == first_fit(
                    self@,
                    piece,
                    s0,
                    cands@.skip(c as int),
                ),
            decreases cands@.len() - c,
        {
            let (rot, mir) = cands[c];
            let hit = self.path_fits(piece, start, rot, mir);
            proof {
                assert(cands@.skip(c as int)[0] == cands@[c as int]);
                assert(cands@.skip(c as int).drop_first() =~= cands@.skip(c as int + 1));
            }
            if hit {
                assert(first_fit(self@, piece, s0, cands@.skip(c as int)) == Some(
                    cands@[c as int],
                ));
                return Some((rot, mir));
            }
            c = c + 1;
        }
        proof {
            assert(cands@.skip(cands@.len() as int) =~= Seq::<(Rotation, bool)>::empty());
        }
        None
    }

    fn count_occupied(&self, piece: Piece) -> (r: usize)
        ensures
            r as int == count_piece(self@, piece, 45),
    {
        proof {
            use_type_invariant(self);
        }
        let mut count: usize = 0;
        let mut i: usize = 0;
        while i < 45
            invariant
                i <= 45,
                count <= i,
                holes_ok(self@),
                count as int == count_piece(self@, piece, i as int),
            decreases 45 - i,
        {
            if status_eq(self.cells[i], Status::Occupied(piece)) {
                count = count + 1;
            }
            i = i + 1;
        }
        count
    }

    fn recover_piece(&self, piece: Piece) -> (r: Option<Placement>)
        ensures
            r == recovered(self@, piece),
    {
        proof {
            use_type_invariant(self);
        }
        let mut i: u8 = 0;
        while i < 45
            invariant
                i <= 45,
                holes_ok(self@),
                recovered(self@, piece) == recovered_from(self@, piece, i as int),
            decreases 45 - i,
        {
            if i != 6 && i != 13 {
                let sq = Square { index: i };
                match self.check_placement(piece, sq) {
                    Some((rot, mir)) => {
                        return Some(
                            Placement { piece, square: sq, rotation: rot, mirror: mir },
                        );
                    },
                    None => {},
                }
            } else {
                proof {
                    assert(self@[i as int] is Nonexistent);
                    assert(check_placement_spec(self@, piece, i as int) is None);
                }
            }
            i = i + 1;
        }
        None
    }

    /// The placement of every piece, recovered from occupancy alone:
    /// succeeds exactly when every piece covers its own number of cells and
    /// an anchor and orientation can be recovered for each, and then lists
    /// the eight placements in the fixed piece order.
    pub fn placements(&self) -> (r: Result<Vec<Placement>, PlacementError>)
        ensures
            match r {
                Ok(v) => fully_placed(self@) && v@.len() == 8 && forall|j: int|
                    0 <= j < 8 ==> #[trigger] v@[j] == recovered(self@, piece_at(j))->Some_0,
                Err(_) => !fully_placed(self@),
            },
    {
        proof {
            use_type_invariant(self);
        }
        if !status_eq(self.cells[6], Status::Nonexistent) || !status_eq(
            self.cells[13],
            Status::Nonexistent,
        ) {
            return Err(PlacementError);
        }
        let pieces = Piece::pieces();
        let mut result: Vec<Placement> = Vec::new();
        let mut j: usize = 0;
        while j < 8
            invariant
                j <= 8,
                holes_ok(self@),
                pieces@.len() == 8,
                forall|i: int| 0 <= i < 8 ==> #[trigger] pieces@[i] == piece_at(i),
                result@.len() == j,
                forall|i: int|
                    0 <= i < j ==> count_piece(self@, #[trigger] piece_at(i), 45)
                        == square_count_spec(piece_at(i)) && recovered(self@, piece_at(i))
                        is Some,
                forall|i: int|
                    0 <= i < j ==> #[trigger] result@[i] == recovered(self@, piece_at(i))->Some_0,
            decreases 8 - j,
        {
            let piece = pieces[j];
            let count = self.count_occupied(piece);
            if count != piece.square_count() {
                assert(!fully_placed(self@));
                return Err(PlacementError);
            }
            match self.recover_piece(piece) {
                Some(placement) => {
                    result.push(placement);
                },
                None => {
                    assert(!fully_placed(self@));
                    return Err(PlacementError);
                },
            }
            j = j + 1;
        }
        assert forall|p: Piece|
            count_piece(self@, p, 45) == square_count_spec(p) && #[trigger] recovered(self@, p)
                is Some by {
            assert(p == piece_at(piece_index(p)));
            assert(0 <= piece_index(p) < 8);
        }
        Ok(result)
    }
}

impl Board {
    fn get_statuses_by_corner(&self, row: usize, col: usize) -> (r: (Status, Status, Status, Status))
        requires
            row <= 7,
            col <= 7,
        ensures
            r == corner_statuses(self@, row as int, col as int),
    {
        proof {
            use_type_invariant(self);
        }
        let square = col + 7 * row;
        let a = if row > 0 && col > 0 && square < 53 {
            self.cells[square - 8]
        } else {
            Status::Nonexistent
        };
        let b = if row > 0 && col < 7 && square < 52 {
            self.cells[square - 7]
        } else {
            Status::Nonexistent
        };
        let c = if row < 7 && col > 0 && square < 46 {
            self.cells[square - 1]
        } else {
            Status::Nonexistent
        };
        let d = if row < 7 && col < 7 && square < 45 {
            self.cells[square]
        } else {
            Status::Nonexistent
        };
        (a, b, c, d)
    }

    /// A miniature textual rendering of the grid, keyed off adjacency of
    /// same-status neighbour cells; for display only.
    pub fn to_mini_string(&self) -> String {
        let mut result = String::new();
        let mut row: usize = 0;
        while row <= 7
            invariant
                row <= 8,
            decreases 8 - row,
        {
            let mut col: usize = 0;
            while col <= 7
                invariant
                    row <= 7,
                    col <= 8,
                decreases 8 - col,
            {
                let (a, b, c, d) = self.get_statuses_by_corner(row, col);
                result.append(mini_corner_str(a, b, c, d, row));
                col = col + 1;
            }
            row = row + 1;
        }
        result
    }

    /// A full-size textual rendering of the grid with the uncovered cells
    /// labelled; for display only.
    pub fn to_display_string(&self) -> String {
        let mut result = String::new();
        result.append("\u{256d}\u{2500}\u{2500}\u{2500}\u{2500}\u{2500}\u{2500}\u{2500}\u{2500}\u{2500}\u{2500}\u{2500}\u{2500}\u{2500}\u{2500}\u{2500}\u{2500}\u{2500}\u{2500}\u{2500}\u{2500}\u{2500}\u{2500}\u{2500}\u{2500}\u{2500}\u{2500}\u{2500}\u{256e}\n");
        let mut row: usize = 0;
        while row <= 7
            invariant
                row <= 8,
            decreases 8 - row,
        {
            result.append("\u{2502} ");
            let mut col: usize = 0;
            while col <= 7
                invariant
                    row <= 7,
                    col <= 8,
                decreases 8 - col,
            {
                let (a, b, c, d) = self.get_statuses_by_corner(row, col);
                result.append(big_corner_str(a, b, c, d, row));
                col = col + 1;
            }
            result.append("\u{2502}\n");
            if row < 7 {
                result.append("\u{2502} ");
                let mut col2: usize = 0;
                while col2 <= 7
                    invariant
                        row <= 6,
                        col2 <= 8,
                    decreases 8 - col2,
                {
                    let (_, _, c, d) = self.get_statuses_by_corner(row, col2);
                    if row < 2 && col2 == 6 {
                    } else if row == 6 && col2 == 7 {
                        result.append("  ");
                    } else if col2 == 7 {
                        result.append("\u{2502} ");
                    } else {
                        if status_eq(c, d) {
                            result.append(" ");
                        } else {
                            result.append("\u{2502}");
                        }
                        if matches!(d, Status::Empty) {
                            let idx = (col2 + 7 * row) as u8;
                            match Square::from_index(idx) {
                                Ok(sq) => result.append(sq.label_padded()),
                                Err(_) => result.append("   "),
                            }
                        } else {
                            result.append("   ");
                        }
                    }
                    col2 = col2 + 1;
                }
                if row == 1 {
                    result.append("\u{2570}\u{2500}\u{2500}\u{2500}\u{256e}\n");
                } else {
                    result.append("\u{2502}\n");
                }
            }
            row = row + 1;
        }
        result.append("\u{2570}\u{2500}\u{2500}\u{2500}\u{2500}\u{2500}\u{2500}\u{2500}\u{2500}\u{2500}\u{2500}\u{2500}\u{2500}\u{2500}\u{2500}\u{2500}\u{2500}\u{2500}\u{2500}\u{2500}\u{2500}\u{2500}\u{2500}\u{2500}\u{2500}\u{2500}\u{2500}\u{2500}\u{2500}\u{2500}\u{2500}\u{2500}\u{256f}");
        result
    }
}

/// The four cell states around one grid corner: above-left, above-right,
/// below-left and below-right of the corner at `(row, col)`, with
/// `Nonexistent` standing in beyond the edges.
pub open spec fn corner_statuses(cells: Seq<Status>, row: int, col: int) -> (
    Status,
    Status,
    Status,
    Status,
) {
    let square = col + 7 * row;
    (
        if row > 0 && col > 0 && square < 53 {
            cells[square - 8]
        } else {
            Status::Nonexistent
        },
        if row > 0 && col < 7 && square < 52 {
            cells[square - 7]
        } else {
            Status::Nonexistent
        },
        if row < 7 && col > 0 && square < 46 {
            cells[square - 1]
        } else {
            Status::Nonexistent
        },
        if row < 7 && col < 7 && square < 45 {
            cells[square]
        } else {
            Status::Nonexistent
        },
    )
}

/// The miniature glyph drawn at one corner, chosen by which neighbouring
/// cells share a status.
fn mini_corner_str(a: Status, b: Status, c: Status, d: Status, row: usize) -> &'static str {
    let an = matches!(a, Status::Nonexistent);
    let bn = matches!(b, Status::Nonexistent);
    let cn = matches!(c, Status::Nonexistent);
    let dn = matches!(d, Status::Nonexistent);
    if an && bn && cn && dn {
        if row == 7 {
            "  "
        } else {
            ""
        }
    } else if an && bn && dn {
        "\u{2510}\n"
    } else if bn && cn && dn {
        "\u{2518}\n"
    } else if bn && dn && status_eq(a, c) {
        "\u{2502}\n"
    } else if bn && dn {
        "\u{2524}\n"
    } else if status_eq(a, b) && status_eq(a, c) && status_eq(a, d) {
        "  "
    } else if status_eq(a, b) && status_eq(c, d) {
        "\u{2500}\u{2500}"
    } else if status_eq(a, c) && status_eq(b, d) {
        "\u{2502} "
    } else if status_eq(a, b) && status_eq(a, c) {
        "\u{250c}\u{2500}"
    } else if status_eq(a, b) && status_eq(a, d) {
        "\u{2510} "
    } else if status_eq(a, c) && status_eq(a, d) {
        "\u{2514}\u{2500}"
    } else if status_eq(b, c) && status_eq(b, d) {
        "\u{2518} "
    } else if status_eq(a, b) {
        "\u{252c}\u{2500}"
    } else if status_eq(a, c) {
        "\u{251c}\u{2500}"
    } else if status_eq(b, d) {
        "\u{2524} "
    } else if status_eq(c, d) {
        "\u{2534}\u{2500}"
    } else {
        "\u{253c}\u{2500}"
    }
}

/// The full-size glyph drawn at one corner.
fn big_corner_str(a: Status, b: Status, c: Status, d: Status, row: usize) -> &'static str {
    let an = matches!(a, Status::Nonexistent);
    let bn = matches!(b, Status::Nonexistent);
    let cn = matches!(c, Status::Nonexistent);
    let dn = matches!(d, Status::Nonexistent);
    if an && bn && cn && dn {
        if row == 7 {
            "    "
        } else {
            ""
        }
    } else if an && bn && dn {
        "\u{2510} "
    } else if bn && cn && dn {
        "\u{2518} "
    } else if bn && dn && status_eq(a, c) {
        "\u{2502} "
    } else if bn && dn {
        "\u{2524} "
    } else if status_eq(a, b) && status_eq(a, c) && status_eq(a, d) {
        "    "
    } else if status_eq(a, b) && status_eq(c, d) {
        "\u{2500}\u{2500}\u{2500}\u{2500}"
    } else if status_eq(a, c) && status_eq(b, d) {
        "\u{2502}   "
    } else if status_eq(a, b) && status_eq(a, c) {
        "\u{250c}\u{2500}\u{2500}\u{2500}"
    } else if status_eq(a, b) && status_eq(a, d) {
        "\u{2510}   "
    } else if status_eq(a, c) && status_eq(a, d) {
        "\u{2514}\u{2500}\u{2500}\u{2500}"
    } else if status_eq(b, c) && status_eq(b, d) {
        "\u{2518}   "
    } else if status_eq(a, b) {
        "\u{252c}\u{2500}\u{2500}\u{2500}"
    } else if status_eq(a, c) {
        "\u{251c}\u{2500}\u{2500}\u{2500}"
    } else if status_eq(b, d) {
        "\u{2524}   "
    } else if status_eq(c, d) {
        "\u{2534}\u{2500}\u{2500}\u{2500}"
    } else {
        "\u{253c}\u{2500}\u{2500}\u{2500}"
    }
}

impl PartialEq for Board {
    /// Two boards are equal exactly when every cell state matches.
    fn eq(&self, other: &Board) -> (r: bool) {
        proof {
            use_type_invariant(self);
            use_type_invariant(other);
        }
        let mut i: usize = 0;
        while i < 45
            invariant
                i <= 45,
                holes_ok(self@),
                holes_ok(other@),
                forall|j: int| 0 <= j < i ==> self@[j] == other@[j],
            decreases 45 - i,
        {
            if !status_eq(self.cells[i], other.cells[i]) {
                assert(!(self@ =~= other@));
                return false;
            }
            i = i + 1;
        }
        assert(self@ =~= other@);
        true
    }
}

impl vstd::std_specs::cmp::PartialEqSpecImpl for Board {
    open spec fn obeys_eq_spec() -> bool {
        true
    }

    open spec fn eq_spec(&self, other: &Board) -> bool {
        self@ == other@
    }
}

impl Clone for Board {
    /// A clone holds exactly the same cell states.
    fn clone(&self) -> (r: Self)
        ensures
            r@ == self@,
    {
        proof {
            use_type_invariant(self);
        }
        Board { cells: self.copy_cells() }
    }
}

/// Structural equality on two cell states.
fn status_eq(a: Status, b: Status) -> (r: bool)
    ensures
        r == (a == b),
{
    match (a, b) {
        (Status::Empty, Status::Empty) => true,
        (Status::Nonexistent, Status::Nonexistent) => true,
        (Status::Occupied(p), Status::Occupied(q)) => match (p, q) {
            (Piece::L, Piece::L) => true,
            (Piece::N, Piece::N) => true,
            (Piece::O, Piece::O) => true,
            (Piece::P, Piece::P) => true,
            (Piece::U, Piece::U) => true,
            (Piece::V, Piece::V) => true,
            (Piece::Y, Piece::Y) => true,
            (Piece::Z, Piece::Z) => true,
            _ => false,
        },
        _ => false,
    }
}

/// The orientation candidates of `piece` in the fixed trial order.
fn candidate_list(piece: Piece) -> (r: Vec<(Rotation, bool)>)
    ensures
        r@ == candidate_orients(piece),
{
    let rots = Rotation::all_by_symmetry(piece.rotational_symmetry());
    let mut r: Vec<(Rotation, bool)> = Vec::new();
    let mut j: usize = 0;
    while j < rots.len()
        invariant
            j <= rots@.len(),
            rots@ == rotations_by_symmetry(rotational_symmetry_spec(piece)),
            r@.len() == j,
            forall|k: int| 0 <= k < j ==> #[trigger] r@[k] == (rots@[k], false),
        decreases rots@.len() - j,
    {
        r.push((rots[j], false));
        j = j + 1;
    }
    if !piece.mirror_symmetric() {
        let mut t: usize = 0;
        let ghost n = rots@.len() as int;
        while t < rots.len()
            invariant
                t <= rots@.len(),
                n == rots@.len() as int,
                rots@ == rotations_by_symmetry(rotational_symmetry_spec(piece)),
                r@.len() == n + t,
                forall|k: int| 0 <= k < n ==> #[trigger] r@[k] == (rots@[k], false),
                forall|k: int| n <= k < n + t ==> #[trigger] r@[k] == (rots@[k - n], true),
            decreases rots@.len() - t,
        {
            r.push((rots[t], true));
            t = t + 1;
        }
    }
    assert(r@ =~= candidate_orients(piece));
    r
}

/// A walk's position after `k` successful steps is its anchor shifted by
/// the walk's prefix offsets: `7` per row and `1` per column, with the
/// column staying inside the seven-wide grid.
pub proof fn lemma_walk_delta(start: int, path: Seq<Direction>, k: int)
    requires
        square_ok(start),
        0 <= k <= path.len(),
        walk_to(start, path, k) is Some,
    ensures
        ({
            let t = walk_to(start, path, k)->Some_0;
            &&& t == start + 7 * crate::board::path::row_delta(path, k)
                + crate::board::path::col_delta(path, k)
            &&& t % 7 == start % 7 + crate::board::path::col_delta(path, k)
            &&& square_ok(t)
        }),
    decreases k,
{
    if k > 0 {
        lemma_walk_delta(start, path, k - 1);
        let p = walk_to(start, path, k - 1)->Some_0;
        let t = walk_to(start, path, k)->Some_0;
        match path[k - 1] {
            Direction::Up => {
                assert(p >= 7) by {
                    assert(p / 7 != 0);
                }
                assert((p - 7) % 7 == p % 7);
            },
            Direction::Down => {
                assert((p + 7) % 7 == p % 7);
            },
            Direction::Left => {
                assert(p % 7 != 0);
                assert((p - 1) % 7 == p % 7 - 1);
            },
            Direction::Right => {
                assert(p % 7 != 6);
                assert((p + 1) % 7 == p % 7 + 1);
            },
        }
    }
}

/// Two prefixes of one walk with different offsets land on different
/// squares.
pub proof fn lemma_walk_injective(start: int, path: Seq<Direction>, j: int, k: int)
    requires
        square_ok(start),
        0 <= j <= path.len(),
        0 <= k <= path.len(),
        walk_to(start, path, j) is Some,
        walk_to(start, path, k) is Some,
        crate::board::path::row_delta(path, j) != crate::board::path::row_delta(path, k)
            || crate::board::path::col_delta(path, j) != crate::board::path::col_delta(path, k),
    ensures
        walk_to(start, path, j) != walk_to(start, path, k),
{
    lemma_walk_delta(start, path, j);
    lemma_walk_delta(start, path, k);
}

/// Two prefixes of one walk with equal offsets land on the same square.
pub proof fn lemma_walk_same(start: int, path: Seq<Direction>, j: int, k: int)
    requires
        square_ok(start),
        0 <= j <= path.len(),
        0 <= k <= path.len(),
        walk_to(start, path, j) is Some,
        walk_to(start, path, k) is Some,
        crate::board::path::row_delta(path, j) == crate::board::path::row_delta(path, k),
        crate::board::path::col_delta(path, j) == crate::board::path::col_delta(path, k),
    ensures
        walk_to(start, path, j) == walk_to(start, path, k),
{
    lemma_walk_delta(start, path, j);
    lemma_walk_delta(start, path, k);
}

/// A successful first-fit scan reports an orientation that does fit.
pub proof fn lemma_first_fit_fits(
    cells: Seq<Status>,
    piece: Piece,
    start: int,
    cands: Seq<(Rotation, bool)>,
)
    requires
        first_fit(cells, piece, start, cands) is Some,
    ensures
        ({
            let c = first_fit(cells, piece, start, cands)->Some_0;
            fits(cells, piece, start, c.0, c.1)
        }),
    decreases cands.len(),
{
    if cands.len() > 0 && !fits(cells, piece, start, cands[0].0, cands[0].1) {
        lemma_first_fit_fits(cells, piece, start, cands.drop_first());
    }
}

/// The count of cells occupied by a piece equals the size of the set of
/// indices it occupies.
pub proof fn lemma_count_is_card(cells: Seq<Status>, piece: Piece, n: int)
    requires
        0 <= n,
    ensures
        Set::new(|i: int| 0 <= i < n && cells[i] == Status::Occupied(piece)).finite(),
        Set::new(|i: int| 0 <= i < n && cells[i] == Status::Occupied(piece)).len() == count_piece(
            cells,
            piece,
            n,
        ),
    decreases n,
{
    let sn = Set::new(|i: int| 0 <= i < n && cells[i] == Status::Occupied(piece));
    if n == 0 {
        assert(sn =~= Set::empty());
    } else {
        lemma_count_is_card(cells, piece, n - 1);
        let sp = Set::new(|i: int| 0 <= i < n - 1 && cells[i] == Status::Occupied(piece));
        if cells[n - 1] == Status::Occupied(piece) {
            assert(sn =~= sp.insert(n - 1));
            assert(!sp.contains(n - 1));
        } else {
            assert(sn =~= sp);
        }
    }
}

/// Overlap rejection: whenever some step of the walk lands on a cell that is
/// not uncovered — already occupied or a structural hole — the placement is
/// impossible, so `place` returns `None` and the receiving board, being
/// immutable, is unchanged.
pub proof fn lemma_overlap_rejection(
    cells: Seq<Status>,
    start: int,
    path: Seq<Direction>,
    k: int,
)
    requires
        0 <= k <= path.len(),
        walk_to(start, path, k) is Some,
        !(cells[walk_to(start, path, k)->Some_0] is Empty),
    ensures
        !can_place(cells, start, path),
{
}

} // verus!
