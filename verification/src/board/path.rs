//! Piece shapes as directed walks: an ordered run of steps from an implicit
//! anchor square, with rotation and mirror as pure transformations.

use vstd::prelude::*;

use crate::board::piece::Piece;
use crate::board::piece::canonical_dirs;
use crate::board::piece::square_count_spec;
use crate::board::placement::Rotation;
use crate::board::placement::rotation_index;

verus! {

/// One step of a walk between neighbouring cells.
#[derive(Copy, Clone, PartialEq, Eq, Structural, Debug)]
pub enum Direction {
    Up,
    Down,
    Left,
    Right,
}

/// `d` turned by a quarter turn.
pub open spec fn rotate_dir(d: Direction) -> Direction {
    match d {
        Direction::Up => Direction::Left,
        Direction::Down => Direction::Right,
        Direction::Left => Direction::Down,
        Direction::Right => Direction::Up,
    }
}

/// `d` turned by `n` quarter turns.
pub open spec fn rotate_dir_n(d: Direction, n: nat) -> Direction
    decreases n,
{
    if n == 0 {
        d
    } else {
        rotate_dir(rotate_dir_n(d, (n - 1) as nat))
    }
}

/// `d` reflected horizontally.
pub open spec fn mirror_dir(d: Direction) -> Direction {
    match d {
        Direction::Up => Direction::Up,
        Direction::Down => Direction::Down,
        Direction::Left => Direction::Right,
        Direction::Right => Direction::Left,
    }
}

/// Every step of `s` turned by `n` quarter turns.
pub open spec fn rotate_seq(s: Seq<Direction>, n: nat) -> Seq<Direction> {
    s.map_values(|d: Direction| rotate_dir_n(d, n))
}

/// Every step of `s` reflected horizontally.
pub open spec fn mirror_seq(s: Seq<Direction>) -> Seq<Direction> {
    s.map_values(|d: Direction| mirror_dir(d))
}

/// The walk of `piece` under the orientation `(rot, mir)`: mirrored first
/// when `mir` is set, then turned by `rot` quarter turns.
pub open spec fn orient_dirs(piece: Piece, rot: nat, mir: bool) -> Seq<Direction> {
    rotate_seq(
        if mir {
            mirror_seq(canonical_dirs(piece))
        } else {
            canonical_dirs(piece)
        },
        rot,
    )
}

/// How far one step of `d` moves down the grid.
pub open spec fn d_row(d: Direction) -> int {
    match d {
        Direction::Up => -1,
        Direction::Down => 1,
        Direction::Left => 0,
        Direction::Right => 0,
    }
}

/// How far one step of `d` moves right along the grid.
pub open spec fn d_col(d: Direction) -> int {
    match d {
        Direction::Up => 0,
        Direction::Down => 0,
        Direction::Left => -1,
        Direction::Right => 1,
    }
}

/// How many rows below its anchor a walk stands after `k` steps of `path`.
pub open spec fn row_delta(path: Seq<Direction>, k: int) -> int
    decreases k,
{
    if k <= 0 {
        0
    } else {
        row_delta(path, k - 1) + d_row(path[k - 1])
    }
}

/// How many columns right of its anchor a walk stands after `k` steps.
pub open spec fn col_delta(path: Seq<Direction>, k: int) -> int
    decreases k,
{
    if k <= 0 {
        0
    } else {
        col_delta(path, k - 1) + d_col(path[k - 1])
    }
}

/// Mirroring a walk keeps its row offsets and negates its column offsets.
pub proof fn lemma_mirror_delta(s: Seq<Direction>, k: int)
    requires
        0 <= k <= s.len(),
    ensures
        row_delta(mirror_seq(s), k) == row_delta(s, k),
        col_delta(mirror_seq(s), k) == -col_delta(s, k),
    decreases k,
{
    if k > 0 {
        lemma_mirror_delta(s, k - 1);
    }
}

/// Rotating a walk by `n` quarter turns transforms each prefix offset by
/// the corresponding quarter-turn map of the plane.
pub proof fn lemma_rotate_delta(s: Seq<Direction>, n: nat, k: int)
    requires
        n <= 3,
        0 <= k <= s.len(),
    ensures
        n == 0 ==> row_delta(rotate_seq(s, n), k) == row_delta(s, k) && col_delta(
            rotate_seq(s, n),
            k,
        ) == col_delta(s, k),
        n == 1 ==> row_delta(rotate_seq(s, n), k) == -col_delta(s, k) && col_delta(
            rotate_seq(s, n),
            k,
        ) == row_delta(s, k),
        n == 2 ==> row_delta(rotate_seq(s, n), k) == -row_delta(s, k) && col_delta(
            rotate_seq(s, n),
            k,
        ) == -col_delta(s, k),
        n == 3 ==> row_delta(rotate_seq(s, n), k) == col_delta(s, k) && col_delta(
            rotate_seq(s, n),
            k,
        ) == -row_delta(s, k),
    decreases k,
{
    reveal_with_fuel(rotate_dir_n, 5);
    if k > 0 {
        lemma_rotate_delta(s, n, k - 1);
    }
}

/// Orientation keeps distinct prefix offsets distinct: whenever two prefix
/// offsets of a walk differ, they still differ after any mirror and up to
/// three quarter turns.
pub proof fn lemma_orient_delta_distinct(p: Piece, rot: nat, mir: bool, j: int, k: int)
    requires
        rot <= 3,
        0 <= j <= canonical_dirs(p).len(),
        0 <= k <= canonical_dirs(p).len(),
        row_delta(canonical_dirs(p), j) != row_delta(canonical_dirs(p), k) || col_delta(
            canonical_dirs(p),
            j,
        ) != col_delta(canonical_dirs(p), k),
    ensures
        row_delta(orient_dirs(p, rot, mir), j) != row_delta(orient_dirs(p, rot, mir), k)
            || col_delta(orient_dirs(p, rot, mir), j) != col_delta(orient_dirs(p, rot, mir), k),
{
    let base = if mir {
        mirror_seq(canonical_dirs(p))
    } else {
        canonical_dirs(p)
    };
    if mir {
        lemma_mirror_delta(canonical_dirs(p), j);
        lemma_mirror_delta(canonical_dirs(p), k);
    }
    lemma_rotate_delta(base, rot, j);
    lemma_rotate_delta(base, rot, k);
}

/// Orientation keeps equal prefix offsets equal.
pub proof fn lemma_orient_delta_equal(p: Piece, rot: nat, mir: bool, j: int, k: int)
    requires
        rot <= 3,
        0 <= j <= canonical_dirs(p).len(),
        0 <= k <= canonical_dirs(p).len(),
        row_delta(canonical_dirs(p), j) == row_delta(canonical_dirs(p), k),
        col_delta(canonical_dirs(p), j) == col_delta(canonical_dirs(p), k),
    ensures
        row_delta(orient_dirs(p, rot, mir), j) == row_delta(orient_dirs(p, rot, mir), k),
        col_delta(orient_dirs(p, rot, mir), j) == col_delta(orient_dirs(p, rot, mir), k),
{
    let base = if mir {
        mirror_seq(canonical_dirs(p))
    } else {
        canonical_dirs(p)
    };
    if mir {
        lemma_mirror_delta(canonical_dirs(p), j);
        lemma_mirror_delta(canonical_dirs(p), k);
    }
    lemma_rotate_delta(base, rot, j);
    lemma_rotate_delta(base, rot, k);
}

/// Orientation path length law: for every piece except Y — whose canonical
/// walk revisits one cell, so its five distinct cells take five steps —
/// every orientation's walk has exactly one step fewer than the piece's
/// cell count, under every rotation and both mirror states.
pub proof fn lemma_orientation_path_length(p: Piece, rot: nat, mir: bool)
    requires
        p != Piece::Y,
    ensures
        orient_dirs(p, rot, mir).len() == square_count_spec(p) - 1,
{
}

/// An ordered run of directional steps describing a piece's shape as a walk
/// from an implicit anchor square.
#[derive(Clone, Debug)]
pub struct Path {
    dirs: Vec<Direction>,
}

impl View for Path {
    type V = Seq<Direction>;

    closed spec fn view(&self) -> Seq<Direction> {
        self.dirs@
    }
}

fn rotate_dir_exec(d: Direction, n: u8) -> (r: Direction)
    ensures
        r == rotate_dir_n(d, n as nat),
{
    let mut r = d;
    let mut t: u8 = 0;
    while t < n
        invariant
            t <= n,
            r == rotate_dir_n(d, t as nat),
        decreases n - t,
    {
        r = match r {
            Direction::Up => Direction::Left,
            Direction::Down => Direction::Right,
            Direction::Left => Direction::Down,
            Direction::Right => Direction::Up,
        };
        t = t + 1;
    }
    r
}

impl Path {
    /// A path made of the given steps, in order.
    pub fn from_directions(dirs: Vec<Direction>) -> (r: Path)
        ensures
            r@ == dirs@,
    {
        Path { dirs }
    }

    /// The canonical walk of `piece`, before any rotation or mirror.
    pub fn from_piece(piece: Piece) -> (r: Path)
        ensures
            r@ == canonical_dirs(piece),
    {
        let mut dirs: Vec<Direction> = Vec::new();
        match piece {
            Piece::L => {
                dirs.push(Direction::Down);
                dirs.push(Direction::Down);
                dirs.push(Direction::Down);
                dirs.push(Direction::Right);
            },
            Piece::N => {
                dirs.push(Direction::Up);
                dirs.push(Direction::Right);
                dirs.push(Direction::Up);
                dirs.push(Direction::Up);
            },
            Piece::O => {
                dirs.push(Direction::Up);
                dirs.push(Direction::Up);
                dirs.push(Direction::Right);
                dirs.push(Direction::Down);
                dirs.push(Direction::Down);
            },
            Piece::P => {
                dirs.push(Direction::Up);
                dirs.push(Direction::Up);
                dirs.push(Direction::Right);
                dirs.push(Direction::Down);
            },
            Piece::U => {
                dirs.push(Direction::Down);
                dirs.push(Direction::Right);
                dirs.push(Direction::Right);
                dirs.push(Direction::Up);
            },
            Piece::V => {
                dirs.push(Direction::Right);
                dirs.push(Direction::Right);
                dirs.push(Direction::Up);
                dirs.push(Direction::Up);
            },
            Piece::Y => {
                dirs.push(Direction::Up);
                dirs.push(Direction::Up);
                dirs.push(Direction::Up);
                dirs.push(Direction::Down);
                dirs.push(Direction::Left);
            },
            Piece::Z => {
                dirs.push(Direction::Right);
                dirs.push(Direction::Down);
                dirs.push(Direction::Down);
                dirs.push(Direction::Right);
            },
        }
        assert(dirs@ =~= canonical_dirs(piece));
        Path { dirs }
    }

    /// The steps of the walk, in order.
    pub fn directions(&self) -> (r: &Vec<Direction>)
        ensures
            r@ == self@,
    {
        &self.dirs
    }

    /// The walk turned by `amount` quarter turns.
    pub fn rotate(&self, amount: Rotation) -> (r: Path)
        ensures
            r@ == rotate_seq(self@, rotation_index(amount) as nat),
    {
        let n = amount.index();
        let mut dirs: Vec<Direction> = Vec::new();
        let mut j: usize = 0;
        while j < self.dirs.len()
            invariant
                j <= self.dirs@.len(),
                dirs@.len() == j,
                forall|k: int|
                    0 <= k < j ==> dirs@[k] == rotate_dir_n(
                        self.dirs@[k],
                        rotation_index(amount) as nat,
                    ),
                n as int == rotation_index(amount),
            decreases self.dirs@.len() - j,
        {
            dirs.push(rotate_dir_exec(self.dirs[j], n));
            j = j + 1;
        }
        assert(dirs@ =~= rotate_seq(self@, rotation_index(amount) as nat));
        Path { dirs }
    }

    /// The walk reflected horizontally.
    pub fn mirror(&self) -> (r: Path)
        ensures
            r@ == mirror_seq(self@),
    {
        let mut dirs: Vec<Direction> = Vec::new();
        let mut j: usize = 0;
        while j < self.dirs.len()
            invariant
                j <= self.dirs@.len(),
                dirs@.len() == j,
                forall|k: int| 0 <= k < j ==> dirs@[k] == mirror_dir(self.dirs@[k]),
            decreases self.dirs@.len() - j,
        {
            let d = match self.dirs[j] {
                Direction::Up => Direction::Up,
                Direction::Down => Direction::Down,
                Direction::Left => Direction::Right,
                Direction::Right => Direction::Left,
            };
            dirs.push(d);
            j = j + 1;
        }
        assert(dirs@ =~= mirror_seq(self@));
        Path { dirs }
    }

    /// The walk of `piece` under the orientation `(rotation, mirror)`:
    /// mirror first, then rotate.
    pub fn from_orientation(piece: Piece, rotation: Rotation, mirror: bool) -> (r: Path)
        ensures
            r@ == orient_dirs(piece, rotation_index(rotation) as nat, mirror),
    {
        let mut path = Path::from_piece(piece);
        if mirror {
            path = path.mirror();
        }
        path.rotate(rotation)
    }
}

} // verus!
