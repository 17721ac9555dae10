//! The compact nine-byte codec: per piece, an optional anchor square, a
//! rotation and a mirror flag, serialised back to back. Encoding derives the
//! orientations by placement recovery; decoding replays every placement and
//! so re-validates the record instead of trusting the bytes.

use vstd::prelude::*;

use crate::board::Board;
use crate::board::path::Path;
use crate::board::path::orient_dirs;
use crate::board::piece::Piece;
use crate::board::piece::piece_at;
use crate::board::placement::PlacementError;
use crate::board::placement::Rotation;
use crate::board::placement::rotation_at;
use crate::board::placement::rotation_index;
use crate::board::square::Square;
use crate::board::square::square_ok;
use crate::board::can_place;
use crate::board::check_placement_spec;
use crate::board::count_piece;
use crate::board::default_cells;
use crate::board::fits;
use crate::board::first_fit;
use crate::board::fully_placed;
use crate::board::holes_ok;
use crate::board::candidate_orients;
use crate::board::lemma_count_is_card;
use crate::board::lemma_first_fit_fits;
use crate::board::lemma_walk_delta;
use crate::board::lemma_walk_injective;
use crate::board::lemma_walk_same;
use crate::board::place_cells;
use crate::board::recovered;
use crate::board::recovered_from;
use crate::board::visits;
use crate::board::visits_upto;
use crate::board::walk_to;
use crate::board::Status;
use crate::board::path::lemma_orient_delta_distinct;
use crate::board::path::lemma_orient_delta_equal;
use crate::board::piece::lemma_canonical_deltas;
use crate::board::piece::piece_index;
use crate::board::piece::square_count_spec;

verus! {

/// The sentinel anchor value meaning "piece not placed".
pub const UNPLACED: u8 = 0x3f;

/// The data byte of one piece: the rotation in the top two bits, the anchor
/// square index — or the unplaced sentinel — in the bottom six.
pub open spec fn data_byte_spec(sq: Option<Square>, rot: Rotation) -> u8 {
    (((rotation_index(rot) as u8) << 6u8) | (match sq {
        None => UNPLACED,
        Some(s) => s.index,
    })) as u8
}

/// The mirror byte: one bit per piece in the fixed piece order, most
/// significant bit first.
pub open spec fn mirror_byte_spec(ms: Seq<bool>) -> u8 {
    ((if ms[0] {
        128u8
    } else {
        0u8
    }) + (if ms[1] {
        64u8
    } else {
        0u8
    }) + (if ms[2] {
        32u8
    } else {
        0u8
    }) + (if ms[3] {
        16u8
    } else {
        0u8
    }) + (if ms[4] {
        8u8
    } else {
        0u8
    }) + (if ms[5] {
        4u8
    } else {
        0u8
    }) + (if ms[6] {
        2u8
    } else {
        0u8
    }) + (if ms[7] {
        1u8
    } else {
        0u8
    })) as u8
}

/// The board obtained by replaying the first `n` recorded placements, in the
/// fixed piece order, onto the canonical starting board; `None` as soon as a
/// replayed placement is impossible.
pub open spec fn replay_upto(
    sqs: Seq<Option<Square>>,
    rots: Seq<Rotation>,
    mirs: Seq<bool>,
    n: int,
) -> Option<Seq<Status>>
    decreases n,
{
    if n <= 0 {
        Some(default_cells())
    } else {
        match replay_upto(sqs, rots, mirs, n - 1) {
            None => None,
            Some(cells) => match sqs[n - 1] {
                None => Some(cells),
                Some(sq) => {
                    let path = orient_dirs(
                        piece_at(n - 1),
                        rotation_index(rots[n - 1]) as nat,
                        mirs[n - 1],
                    );
                    if can_place(cells, sq.index as int, path) {
                        Some(place_cells(cells, piece_at(n - 1), sq.index as int, path))
                    } else {
                        None
                    }
                },
            },
        }
    }
}

/// The anchor squares read from a nine-byte record: the bottom six bits of
/// each data byte, with the sentinel and any unusable index reading as "not
/// placed".
pub open spec fn decoded_squares(bytes: Seq<u8>) -> Seq<Option<Square>> {
    Seq::new(
        8,
        |i: int|
            {
                let b = bytes[i + 1] & 0x3fu8;
                if square_ok(b as int) {
                    Some(Square { index: b })
                } else {
                    None
                }
            },
    )
}

/// The rotations read from a nine-byte record: the top two bits of each data
/// byte.
pub open spec fn decoded_rotations(bytes: Seq<u8>) -> Seq<Rotation> {
    Seq::new(8, |i: int| rotation_at(((bytes[i + 1] >> 6u8) & 3u8) as int))
}

/// The mirror flags read from a nine-byte record: the bits of the first
/// byte, most significant first.
pub open spec fn decoded_mirrors(bytes: Seq<u8>) -> Seq<bool> {
    Seq::new(8, |i: int| (bytes[0] >> ((7 - i) as u8)) & 1u8 == 1u8)
}

/// The board a nine-byte record decodes to, if its placements replay.
pub open spec fn decode_record(bytes: Seq<u8>) -> Option<Seq<Status>> {
    replay_upto(decoded_squares(bytes), decoded_rotations(bytes), decoded_mirrors(bytes), 8)
}

/// The canonical serialised form of a board: per piece in the fixed
/// enumeration order, an optional anchor square, a rotation and a mirror
/// flag.
#[derive(Debug)]
pub struct CompactBoard {
    squares: Vec<Option<Square>>,
    rotations: Vec<Rotation>,
    mirrors: Vec<bool>,
}

impl CompactBoard {
    /// The recorded anchor squares, one per piece in the fixed order.
    pub closed spec fn squares_spec(self) -> Seq<Option<Square>> {
        self.squares@
    }

    /// The recorded rotations, one per piece in the fixed order.
    pub closed spec fn rotations_spec(self) -> Seq<Rotation> {
        self.rotations@
    }

    /// The recorded mirror flags, one per piece in the fixed order.
    pub closed spec fn mirrors_spec(self) -> Seq<bool> {
        self.mirrors@
    }

    /// Holds of every record: exactly eight placement slots, and every
    /// recorded anchor is a usable square. Established by every constructor
    /// and usable through `use_type_invariant`.
    #[verifier::type_invariant]
    pub open spec fn wf(self) -> bool {
        &&& self.squares_spec().len() == 8
        &&& self.rotations_spec().len() == 8
        &&& self.mirrors_spec().len() == 8
        &&& forall|i: int|
            0 <= i < 8 ==> ((#[trigger] self.squares_spec()[i]) is Some
                ==> self.squares_spec()[i]->0.valid())
    }

    /// A record made of the given eight slots; `None` unless each list has
    /// exactly eight entries and every recorded anchor is a usable square.
    pub fn new(squares: Vec<Option<Square>>, rotations: Vec<Rotation>, mirrors: Vec<bool>) -> (r:
        Option<CompactBoard>)
        ensures
            match r {
                Some(cb) => {
                    &&& squares@.len() == 8
                    &&& rotations@.len() == 8
                    &&& mirrors@.len() == 8
                    &&& cb.squares_spec() == squares@
                    &&& cb.rotations_spec() == rotations@
                    &&& cb.mirrors_spec() == mirrors@
                },
                None => !(squares@.len() == 8 && rotations@.len() == 8 && mirrors@.len() == 8
                    && forall|i: int|
                    0 <= i < 8 ==> ((#[trigger] squares@[i]) is Some
                        ==> squares@[i]->0.valid())),
            },
    {
        if squares.len() != 8 || rotations.len() != 8 || mirrors.len() != 8 {
            return None;
        }
        let mut i: usize = 0;
        while i < 8
            invariant
                i <= 8,
                squares@.len() == 8,
                forall|j: int|
                    0 <= j < i ==> ((#[trigger] squares@[j]) is Some ==> squares@[j]->0.valid()),
            decreases 8 - i,
        {
            match squares[i] {
                Some(sq) => {
                    if sq.index > 44 || sq.index == 6 || sq.index == 13 {
                        return None;
                    }
                },
                None => {},
            }
            i = i + 1;
        }
        Some(CompactBoard { squares, rotations, mirrors })
    }

    fn data_byte(&self, i: usize) -> (r: u8)
        requires
            i < 8,
        ensures
            r == data_byte_spec(self.squares_spec()[i as int], self.rotations_spec()[i as int]),
    {
        proof {
            use_type_invariant(self);
        }
        let rot_bits: u8 = self.rotations[i].index() << 6u8;
        let sq_bits: u8 = match self.squares[i] {
            None => UNPLACED,
            Some(sq) => sq.index,
        };
        rot_bits | sq_bits
    }

    fn mirror_byte(&self) -> (r: u8)
        ensures
            r == mirror_byte_spec(self.mirrors_spec()),
    {
        proof {
            use_type_invariant(self);
        }
        (if self.mirrors[0] {
            128u8
        } else {
            0u8
        }) + (if self.mirrors[1] {
            64u8
        } else {
            0u8
        }) + (if self.mirrors[2] {
            32u8
        } else {
            0u8
        }) + (if self.mirrors[3] {
            16u8
        } else {
            0u8
        }) + (if self.mirrors[4] {
            8u8
        } else {
            0u8
        }) + (if self.mirrors[5] {
            4u8
        } else {
            0u8
        }) + (if self.mirrors[6] {
            2u8
        } else {
            0u8
        }) + (if self.mirrors[7] {
            1u8
        } else {
            0u8
        })
    }

    /// The nine-byte record: the mirror byte first, then one data byte per
    /// piece in the fixed piece order.
    pub fn to_bytes(&self) -> (r: [u8; 9])
        ensures
            r@.len() == 9,
            r@[0] == mirror_byte_spec(self.mirrors_spec()),
            forall|i: int|
                0 <= i < 8 ==> #[trigger] r@[i + 1] == data_byte_spec(
                    self.squares_spec()[i],
                    self.rotations_spec()[i],
                ),
    {
        [
            self.mirror_byte(),
            self.data_byte(0),
            self.data_byte(1),
            self.data_byte(2),
            self.data_byte(3),
            self.data_byte(4),
            self.data_byte(5),
            self.data_byte(6),
            self.data_byte(7),
        ]
    }

    /// The record read back from nine bytes: anchor squares from the bottom
    /// six bits of each data byte — the sentinel or any hole index reads as
    /// "not placed" — rotations from the top two bits, mirror flags from the
    /// first byte.
    pub fn from_bytes(bytes: &[u8]) -> (r: CompactBoard)
        requires
            bytes@.len() == 9,
        ensures
            r.squares_spec() == decoded_squares(bytes@),
            r.rotations_spec() == decoded_rotations(bytes@),
            r.mirrors_spec() == decoded_mirrors(bytes@),
    {
        let mut squares: Vec<Option<Square>> = Vec::new();
        let mut rotations: Vec<Rotation> = Vec::new();
        let mut mirrors: Vec<bool> = Vec::new();
        let mut i: usize = 0;
        while i < 8
            invariant
                i <= 8,
                bytes@.len() == 9,
                squares@.len() == i,
                rotations@.len() == i,
                mirrors@.len() == i,
                forall|j: int|
                    0 <= j < i ==> #[trigger] squares@[j] == {
                        let b = bytes@[j + 1] & 0x3fu8;
                        if square_ok(b as int) {
                            Some(Square { index: b })
                        } else {
                            None
                        }
                    },
                forall|j: int|
                    0 <= j < i ==> #[trigger] rotations@[j] == rotation_at(
                        ((bytes@[j + 1] >> 6u8) & 3u8) as int,
                    ),
                forall|j: int|
                    0 <= j < i ==> #[trigger] mirrors@[j] == ((bytes@[0] >> ((7 - j) as u8))
                        & 1u8 == 1u8),
                forall|j: int|
                    0 <= j < i ==> ((#[trigger] squares@[j]) is Some ==> squares@[j]->0.valid()),
            decreases 8 - i,
        {
            let data = bytes[i + 1];
            let sq = match Square::from_index(data & 0x3f) {
                Ok(sq) => Some(sq),
                Err(_) => None,
            };
            squares.push(sq);
            rotations.push(Rotation::from_index((data >> 6u8) & 3u8));
            let shift: u8 = 7 - (i as u8);
            mirrors.push((bytes[0] >> shift) & 1u8 == 1u8);
            i = i + 1;
        }
        assert(squares@ =~= decoded_squares(bytes@));
        assert(rotations@ =~= decoded_rotations(bytes@));
        assert(mirrors@ =~= decoded_mirrors(bytes@));
        CompactBoard { squares, rotations, mirrors }
    }

    /// The record of a finished board, derived by placement recovery: fails
    /// exactly when the board is not a complete, internally consistent full
    /// placement of all eight pieces.
    pub fn from_board(board: &Board) -> (r: Result<CompactBoard, PlacementError>)
        ensures
            match r {
                Ok(cb) => {
                    &&& crate::board::fully_placed(board@)
                    &&& forall|j: int|
                        0 <= j < 8 ==> (#[trigger] cb.squares_spec()[j]) == Some(
                            recovered(board@, piece_at(j))->Some_0.square,
                        )
                    &&& forall|j: int|
                        0 <= j < 8 ==> (#[trigger] cb.rotations_spec()[j]) == recovered(
                            board@,
                            piece_at(j),
                        )->Some_0.rotation
                    &&& forall|j: int|
                        0 <= j < 8 ==> (#[trigger] cb.mirrors_spec()[j]) == recovered(
                            board@,
                            piece_at(j),
                        )->Some_0.mirror
                },
                Err(_) => !crate::board::fully_placed(board@),
            },
    {
        proof {
            use_type_invariant(board);
        }
        let placements = match board.placements() {
            Ok(v) => v,
            Err(e) => {
                return Err(e);
            },
        };
        let mut squares: Vec<Option<Square>> = Vec::new();
        let mut rotations: Vec<Rotation> = Vec::new();
        let mut mirrors: Vec<bool> = Vec::new();
        let mut j: usize = 0;
        while j < 8
            invariant
                j <= 8,
                holes_ok(board@),
                placements@.len() == 8,
                forall|i: int|
                    0 <= i < 8 ==> #[trigger] placements@[i] == recovered(
                        board@,
                        piece_at(i),
                    )->Some_0,
                forall|i: int| 0 <= i < 8 ==> recovered(board@, #[trigger] piece_at(i)) is Some,
                crate::board::fully_placed(board@),
                squares@.len() == j,
                rotations@.len() == j,
                mirrors@.len() == j,
                forall|i: int|
                    0 <= i < j ==> (#[trigger] squares@[i]) == Some(
                        recovered(board@, piece_at(i))->Some_0.square,
                    ),
                forall|i: int|
                    0 <= i < j ==> (#[trigger] rotations@[i]) == recovered(
                        board@,
                        piece_at(i),
                    )->Some_0.rotation,
                forall|i: int|
                    0 <= i < j ==> (#[trigger] mirrors@[i]) == recovered(
                        board@,
                        piece_at(i),
                    )->Some_0.mirror,
                forall|i: int|
                    0 <= i < j ==> ((#[trigger] squares@[i]) is Some ==> squares@[i]->0.valid()),
            decreases 8 - j,
        {
            let pl = placements[j];
            proof {
                lemma_recovered_square_valid(board@, piece_at(j as int), 0);
            }
            squares.push(Some(pl.square));
            rotations.push(pl.rotation);
            mirrors.push(pl.mirror);
            j = j + 1;
        }
        Ok(CompactBoard { squares, rotations, mirrors })
    }

    /// The board encoded by this record, rebuilt by replaying each recorded
    /// placement in the fixed piece order; fails exactly when some replayed
    /// placement is impossible, so decoding re-validates the record.
    pub fn to_board(&self) -> (r: Result<Board, PlacementError>)
        ensures
            match r {
                Ok(b) => replay_upto(
                    self.squares_spec(),
                    self.rotations_spec(),
                    self.mirrors_spec(),
                    8,
                ) == Some(b@),
                Err(_) => replay_upto(
                    self.squares_spec(),
                    self.rotations_spec(),
                    self.mirrors_spec(),
                    8,
                ) is None,
            },
    {
        proof {
            use_type_invariant(self);
        }
        let pieces = Piece::pieces();
        let mut board = Board::new();
        let mut i: usize = 0;
        while i < 8
            invariant
                i <= 8,
                self.wf(),
                pieces@.len() == 8,
                forall|j: int| 0 <= j < 8 ==> #[trigger] pieces@[j] == piece_at(j),
                replay_upto(
                    self.squares_spec(),
                    self.rotations_spec(),
                    self.mirrors_spec(),
                    i as int,
                ) == Some(board@),
            decreases 8 - i,
        {
            match self.squares[i] {
                None => {},
                Some(sq) => {
                    let path = Path::from_orientation(pieces[i], self.rotations[i], self.mirrors[i]);
                    match board.place(pieces[i], sq, &path) {
                        Some(next) => {
                            board = next;
                        },
                        None => {
                            proof {
                                assert(replay_upto(
                                    self.squares_spec(),
                                    self.rotations_spec(),
                                    self.mirrors_spec(),
                                    i + 1,
                                ) is None);
                                lemma_replay_none_mono(
                                    self.squares_spec(),
                                    self.rotations_spec(),
                                    self.mirrors_spec(),
                                    i + 1,
                                    8,
                                );
                            }
                            return Err(PlacementError);
                        },
                    }
                },
            }
            i = i + 1;
        }
        Ok(board)
    }
}

/// Once a replay has failed at some prefix, every longer replay fails too.
proof fn lemma_replay_none_mono(
    sqs: Seq<Option<Square>>,
    rots: Seq<Rotation>,
    mirs: Seq<bool>,
    n: int,
    m: int,
)
    requires
        replay_upto(sqs, rots, mirs, n) is None,
        n <= m,
    ensures
        replay_upto(sqs, rots, mirs, m) is None,
    decreases m - n,
{
    if n < m {
        lemma_replay_none_mono(sqs, rots, mirs, n, m - 1);
    }
}

/// The set of squares a walk lands on within its first `k` steps.
spec fn visit_set_upto(start: int, path: Seq<crate::board::Direction>, k: int) -> Set<int> {
    Set::new(|idx: int| visits_upto(start, path, k, idx))
}

/// How many distinct squares the first `k` steps of an oriented walk cover:
/// one per step plus the anchor, except that the Y walk revisits one cell
/// with its fourth step.
proof fn lemma_visit_card_upto(p: Piece, rot: nat, mir: bool, start: int, k: int)
    requires
        rot <= 3,
        square_ok(start),
        0 <= k <= orient_dirs(p, rot, mir).len(),
        forall|j: int| 0 <= j <= k ==> (#[trigger] walk_to(start, orient_dirs(p, rot, mir), j))
            is Some,
    ensures
        visit_set_upto(start, orient_dirs(p, rot, mir), k).finite(),
        visit_set_upto(start, orient_dirs(p, rot, mir), k).len() == (if p == Piece::Y && k >= 4 {
            k
        } else {
            k + 1
        }),
    decreases k,
{
    let path = orient_dirs(p, rot, mir);
    let vk = visit_set_upto(start, path, k);
    lemma_canonical_deltas(p);
    if k == 0 {
        assert(vk =~= Set::empty().insert(start)) by {
            assert forall|idx: int| vk.contains(idx) implies idx == start by {
                let j = choose|j: int| 0 <= j <= 0 && walk_to(start, path, j) == Some(idx);
            }
            assert(walk_to(start, path, 0) == Some(start));
            assert(visits_upto(start, path, 0, start));
        }
    } else {
        lemma_visit_card_upto(p, rot, mir, start, k - 1);
        let vp = visit_set_upto(start, path, k - 1);
        let t = walk_to(start, path, k)->Some_0;
        assert(vk =~= vp.insert(t)) by {
            assert forall|idx: int| vk.contains(idx) implies vp.insert(t).contains(idx) by {
                let j = choose|j: int| 0 <= j <= k && walk_to(start, path, j) == Some(idx);
                if j <= k - 1 {
                    assert(visits_upto(start, path, k - 1, idx));
                }
            }
            assert forall|idx: int| vp.insert(t).contains(idx) implies vk.contains(idx) by {
                if vp.contains(idx) {
                    let j = choose|j: int|
                        0 <= j <= k - 1 && walk_to(start, path, j) == Some(idx);
                    assert(visits_upto(start, path, k, idx));
                } else {
                    assert(visits_upto(start, path, k, t));
                }
            }
        }
        if p == Piece::Y && k == 4 {
            lemma_orient_delta_equal(p, rot, mir, 2, 4);
            lemma_walk_same(start, path, 2, 4);
            assert(visits_upto(start, path, k - 1, t)) by {
                assert(walk_to(start, path, 2) == Some(t));
            }
            assert(vp.contains(t));
            assert(vp.insert(t) =~= vp);
        } else {
            assert forall|j: int| 0 <= j <= k - 1 implies walk_to(start, path, j) != Some(t) by {
                lemma_orient_delta_distinct(p, rot, mir, j, k);
                lemma_walk_injective(start, path, j, k);
            }
            assert(!vp.contains(t)) by {
                if vp.contains(t) {
                    let j = choose|j: int|
                        0 <= j <= k - 1 && walk_to(start, path, j) == Some(t);
                }
            }
        }
    }
}

/// A fitting orientation of a piece with exactly its own number of occupied
/// cells visits every one of them and nothing else: the visited squares are
/// exactly the piece's occupied squares.
proof fn lemma_fits_visits_all(
    cells: Seq<Status>,
    piece: Piece,
    start: int,
    rot: Rotation,
    mir: bool,
)
    requires
        square_ok(start),
        fits(cells, piece, start, rot, mir),
        count_piece(cells, piece, 45) == square_count_spec(piece),
    ensures
        forall|i: int|
            0 <= i < 45 && cells[i] == Status::Occupied(piece) ==> #[trigger] visits(
                start,
                orient_dirs(piece, rotation_index(rot) as nat, mir),
                i,
            ),
        forall|i: int|
            #[trigger] visits(start, orient_dirs(piece, rotation_index(rot) as nat, mir), i)
                ==> 0 <= i < 45 && cells[i] == Status::Occupied(piece),
{
    let rn = rotation_index(rot) as nat;
    let path = orient_dirs(piece, rn, mir);
    assert(rotation_index(rot) <= 3);
    lemma_visit_card_upto(piece, rn, mir, start, path.len() as int);
    let vs = visit_set_upto(start, path, path.len() as int);
    assert(vs.len() == square_count_spec(piece));
    let os = Set::new(|i: int| 0 <= i < 45 && cells[i] == Status::Occupied(piece));
    lemma_count_is_card(cells, piece, 45);
    assert forall|i: int| vs.contains(i) implies os.contains(i) by {
        let j = choose|j: int| 0 <= j <= path.len() && walk_to(start, path, j) == Some(i);
        lemma_walk_delta(start, path, j);
        assert(cells[i] == Status::Occupied(piece));
    }
    vstd::set_lib::lemma_subset_equality(vs, os);
    assert forall|i: int|
        0 <= i < 45 && cells[i] == Status::Occupied(piece) implies #[trigger] visits(
        start,
        path,
        i,
    ) by {
        assert(os.contains(i));
        assert(vs.contains(i));
    }
    assert forall|i: int| #[trigger] visits(start, path, i) implies 0 <= i < 45 && cells[i]
        == Status::Occupied(piece) by {
        assert(vs.contains(i));
        assert(os.contains(i));
    }
}

/// Whether cell `i` is occupied by one of the first `n` pieces of the fixed
/// enumeration order.
spec fn occ_by_first(cells: Seq<Status>, i: int, n: int) -> bool {
    exists|j: int| 0 <= j < n && cells[i] == Status::Occupied(piece_at(j))
}

/// The starting board overlaid with the cells of the first `n` pieces.
spec fn merge_upto(cells: Seq<Status>, n: int) -> Seq<Status> {
    Seq::new(
        45,
        |i: int|
            if occ_by_first(cells, i, n) {
                cells[i]
            } else {
                default_cells()[i]
            },
    )
}

/// Replaying the first `n` recovered placements rebuilds the starting board
/// overlaid with exactly the first `n` pieces' cells.
proof fn lemma_replay_prefix(
    cells: Seq<Status>,
    sqs: Seq<Option<Square>>,
    rots: Seq<Rotation>,
    mirs: Seq<bool>,
    n: int,
)
    requires
        holes_ok(cells),
        fully_placed(cells),
        sqs.len() == 8,
        rots.len() == 8,
        mirs.len() == 8,
        forall|j: int|
            0 <= j < 8 ==> (#[trigger] sqs[j]) == Some(
                recovered(cells, piece_at(j))->Some_0.square,
            ),
        forall|j: int|
            0 <= j < 8 ==> (#[trigger] rots[j]) == recovered(cells, piece_at(j))->Some_0.rotation,
        forall|j: int|
            0 <= j < 8 ==> (#[trigger] mirs[j]) == recovered(cells, piece_at(j))->Some_0.mirror,
        0 <= n <= 8,
    ensures
        replay_upto(sqs, rots, mirs, n) == Some(merge_upto(cells, n)),
    decreases n,
{
    if n == 0 {
        assert(merge_upto(cells, 0) =~= default_cells()) by {
            assert forall|i: int| 0 <= i < 45 implies !occ_by_first(cells, i, 0) by {
                if occ_by_first(cells, i, 0) {
                    let j = choose|j: int|
                        0 <= j < 0 && cells[i] == Status::Occupied(piece_at(j));
                }
            }
        }
    } else {
        lemma_replay_prefix(cells, sqs, rots, mirs, n - 1);
        let p = piece_at(n - 1);
        assert(recovered(cells, p) is Some);
        lemma_recovered_square_valid(cells, p, 0);
        let pl = recovered(cells, p)->Some_0;
        let si = pl.square.index as int;
        assert(check_placement_spec(cells, p, si) == Some((pl.rotation, pl.mirror)));
        assert(first_fit(cells, p, si, candidate_orients(p)) == Some((pl.rotation, pl.mirror)));
        lemma_first_fit_fits(cells, p, si, candidate_orients(p));
        assert(fits(cells, p, si, pl.rotation, pl.mirror));
        assert(count_piece(cells, p, 45) == square_count_spec(p));
        lemma_fits_visits_all(cells, p, si, pl.rotation, pl.mirror);
        let rn = rotation_index(pl.rotation) as nat;
        let path = orient_dirs(p, rn, pl.mirror);
        let prev = merge_upto(cells, n - 1);
        assert forall|j: int| 0 <= j < 8 && j != n - 1 implies piece_at(j) != p by {
            assert(piece_index(piece_at(j)) == j);
            assert(piece_index(piece_at(n - 1)) == n - 1);
        }
        assert(can_place(prev, si, path)) by {
            assert forall|k: int|
                0 <= k <= path.len() implies (#[trigger] walk_to(si, path, k)) is Some && prev[
                walk_to(si, path, k)->Some_0] is Empty by {
                assert(walk_to(si, path, k) is Some);
                let t = walk_to(si, path, k)->Some_0;
                assert(visits_upto(si, path, path.len() as int, t));
                assert(visits(si, path, t));
                assert(0 <= t < 45 && cells[t] == Status::Occupied(p));
                assert(t != 6 && t != 13);
                assert(!occ_by_first(cells, t, n - 1)) by {
                    if occ_by_first(cells, t, n - 1) {
                        let j = choose|j: int|
                            0 <= j < n - 1 && cells[t] == Status::Occupied(piece_at(j));
                        assert(piece_at(j) == p);
                    }
                }
                assert(prev[t] == default_cells()[t]);
            }
        }
        assert(place_cells(prev, p, si, path) =~= merge_upto(cells, n)) by {
            assert forall|i: int|
                0 <= i < 45 implies place_cells(prev, p, si, path)[i] == merge_upto(cells, n)[i] by {
                if visits(si, path, i) {
                    assert(cells[i] == Status::Occupied(p));
                    assert(occ_by_first(cells, i, n)) by {
                        assert(cells[i] == Status::Occupied(piece_at(n - 1)));
                    }
                } else {
                    assert(!(cells[i] == Status::Occupied(p)) || !(0 <= i < 45));
                    assert(occ_by_first(cells, i, n) == occ_by_first(cells, i, n - 1)) by {
                        if occ_by_first(cells, i, n) {
                            let j = choose|j: int|
                                0 <= j < n && cells[i] == Status::Occupied(piece_at(j));
                            if j == n - 1 {
                                assert(cells[i] == Status::Occupied(p));
                            } else {
                                assert(occ_by_first(cells, i, n - 1));
                            }
                        }
                        if occ_by_first(cells, i, n - 1) {
                            let j = choose|j: int|
                                0 <= j < n - 1 && cells[i] == Status::Occupied(piece_at(j));
                            assert(occ_by_first(cells, i, n));
                        }
                    }
                }
            }
        }
        assert(replay_upto(sqs, rots, mirs, n) == Some(place_cells(prev, p, si, path)));
    }
}

/// Round-trip law: a board on which every piece covers exactly its own
/// number of cells and has a recoverable placement is rebuilt, cell for
/// cell, by replaying its recovered placements — so decoding an encoded
/// full solution yields an equal board.
pub proof fn lemma_round_trip(
    cells: Seq<Status>,
    sqs: Seq<Option<Square>>,
    rots: Seq<Rotation>,
    mirs: Seq<bool>,
)
    requires
        holes_ok(cells),
        fully_placed(cells),
        sqs.len() == 8,
        rots.len() == 8,
        mirs.len() == 8,
        forall|j: int|
            0 <= j < 8 ==> (#[trigger] sqs[j]) == Some(
                recovered(cells, piece_at(j))->Some_0.square,
            ),
        forall|j: int|
            0 <= j < 8 ==> (#[trigger] rots[j]) == recovered(cells, piece_at(j))->Some_0.rotation,
        forall|j: int|
            0 <= j < 8 ==> (#[trigger] mirs[j]) == recovered(cells, piece_at(j))->Some_0.mirror,
    ensures
        replay_upto(sqs, rots, mirs, 8) == Some(cells),
{
    lemma_replay_prefix(cells, sqs, rots, mirs, 8);
    assert(merge_upto(cells, 8) =~= cells) by {
        assert forall|i: int| 0 <= i < 45 implies merge_upto(cells, 8)[i] == cells[i] by {
            match cells[i] {
                Status::Occupied(q) => {
                    assert(occ_by_first(cells, i, 8)) by {
                        assert(piece_at(piece_index(q)) == q);
                        assert(0 <= piece_index(q) < 8);
                        assert(cells[i] == Status::Occupied(piece_at(piece_index(q))));
                    }
                },
                Status::Empty => {
                    assert(!occ_by_first(cells, i, 8)) by {
                        if occ_by_first(cells, i, 8) {
                            let j = choose|j: int|
                                0 <= j < 8 && cells[i] == Status::Occupied(piece_at(j));
                        }
                    }
                    assert(i != 6 && i != 13);
                },
                Status::Nonexistent => {
                    assert(i == 6 || i == 13);
                    assert(!occ_by_first(cells, i, 8)) by {
                        if occ_by_first(cells, i, 8) {
                            let j = choose|j: int|
                                0 <= j < 8 && cells[i] == Status::Occupied(piece_at(j));
                        }
                    }
                },
            }
        }
    }
}

/// Extracting each weighted bit of a sum of eight flag bits.
proof fn lemma_mirror_bits(m0: u8, m1: u8, m2: u8, m3: u8, m4: u8, m5: u8, m6: u8, m7: u8)
    requires
        m0 <= 1,
        m1 <= 1,
        m2 <= 1,
        m3 <= 1,
        m4 <= 1,
        m5 <= 1,
        m6 <= 1,
        m7 <= 1,
    ensures
        ({
            let b = (m0 * 128 + m1 * 64 + m2 * 32 + m3 * 16 + m4 * 8 + m5 * 4 + m6 * 2
                + m7) as u8;
            &&& (b >> 7u8) & 1u8 == m0
            &&& (b >> 6u8) & 1u8 == m1
            &&& (b >> 5u8) & 1u8 == m2
            &&& (b >> 4u8) & 1u8 == m3
            &&& (b >> 3u8) & 1u8 == m4
            &&& (b >> 2u8) & 1u8 == m5
            &&& (b >> 1u8) & 1u8 == m6
            &&& (b >> 0u8) & 1u8 == m7
        }),
{
    assert(({
        let b = (m0 * 128 + m1 * 64 + m2 * 32 + m3 * 16 + m4 * 8 + m5 * 4 + m6 * 2 + m7) as u8;
        &&& (b >> 7u8) & 1u8 == m0
        &&& (b >> 6u8) & 1u8 == m1
        &&& (b >> 5u8) & 1u8 == m2
        &&& (b >> 4u8) & 1u8 == m3
        &&& (b >> 3u8) & 1u8 == m4
        &&& (b >> 2u8) & 1u8 == m5
        &&& (b >> 1u8) & 1u8 == m6
        &&& (b >> 0u8) & 1u8 == m7
    })) by (bit_vector)
        requires
            m0 <= 1 && m1 <= 1 && m2 <= 1 && m3 <= 1 && m4 <= 1 && m5 <= 1 && m6 <= 1 && m7
                <= 1,
    ;
}

/// Byte-form round trip: reading back the nine bytes written for a record
/// recovers exactly the recorded anchor squares, rotations and mirror
/// flags.
pub proof fn lemma_bytes_round_trip(
    sqs: Seq<Option<Square>>,
    rots: Seq<Rotation>,
    mirs: Seq<bool>,
    bytes: Seq<u8>,
)
    requires
        sqs.len() == 8,
        rots.len() == 8,
        mirs.len() == 8,
        forall|i: int| 0 <= i < 8 ==> ((#[trigger] sqs[i]) is Some ==> sqs[i]->0.valid()),
        bytes.len() == 9,
        bytes[0] == mirror_byte_spec(mirs),
        forall|i: int| 0 <= i < 8 ==> (#[trigger] bytes[i + 1]) == data_byte_spec(sqs[i], rots[i]),
    ensures
        decoded_squares(bytes) == sqs,
        decoded_rotations(bytes) == rots,
        decoded_mirrors(bytes) == mirs,
{
    assert forall|i: int| 0 <= i < 8 implies {
        &&& decoded_squares(bytes)[i] == sqs[i]
        &&& decoded_rotations(bytes)[i] == rots[i]
    } by {
        let db = data_byte_spec(sqs[i], rots[i]);
        let r: u8 = rotation_index(rots[i]) as u8;
        let sb: u8 = match sqs[i] {
            None => UNPLACED,
            Some(sq) => sq.index,
        };
        assert(r <= 3);
        assert(sb <= 63);
        assert(((r << 6u8) | sb) & 0x3fu8 == sb && (((r << 6u8) | sb) >> 6u8) & 3u8 == r)
            by (bit_vector)
            requires
                r <= 3 && sb <= 63,
        ;
        assert(rotation_at(r as int) == rots[i]);
        match sqs[i] {
            None => {
                assert(!square_ok(UNPLACED as int));
            },
            Some(sq) => {
                assert(square_ok(sb as int));
            },
        }
    }
    let m0: u8 = if mirs[0] { 1 } else { 0 };
    let m1: u8 = if mirs[1] { 1 } else { 0 };
    let m2: u8 = if mirs[2] { 1 } else { 0 };
    let m3: u8 = if mirs[3] { 1 } else { 0 };
    let m4: u8 = if mirs[4] { 1 } else { 0 };
    let m5: u8 = if mirs[5] { 1 } else { 0 };
    let m6: u8 = if mirs[6] { 1 } else { 0 };
    let m7: u8 = if mirs[7] { 1 } else { 0 };
    lemma_mirror_bits(m0, m1, m2, m3, m4, m5, m6, m7);
    assert(bytes[0] == (m0 * 128 + m1 * 64 + m2 * 32 + m3 * 16 + m4 * 8 + m5 * 4 + m6 * 2
        + m7) as u8);
    assert forall|i: int| 0 <= i < 8 implies decoded_mirrors(bytes)[i] == mirs[i] by {
        if i == 0 {
            assert((bytes[0] >> 7u8) & 1u8 == m0);
        } else if i == 1 {
            assert((bytes[0] >> 6u8) & 1u8 == m1);
        } else if i == 2 {
            assert((bytes[0] >> 5u8) & 1u8 == m2);
        } else if i == 3 {
            assert((bytes[0] >> 4u8) & 1u8 == m3);
        } else if i == 4 {
            assert((bytes[0] >> 3u8) & 1u8 == m4);
        } else if i == 5 {
            assert((bytes[0] >> 2u8) & 1u8 == m5);
        } else if i == 6 {
            assert((bytes[0] >> 1u8) & 1u8 == m6);
        } else {
            assert((bytes[0] >> 0u8) & 1u8 == m7);
        }
    }
    assert(decoded_squares(bytes) =~= sqs);
    assert(decoded_rotations(bytes) =~= rots);
    assert(decoded_mirrors(bytes) =~= mirs);
}

/// Any placement that recovery reports anchors on a cell occupied by its
/// piece, hence on a usable square of a well-shaped board.
proof fn lemma_recovered_square_valid(cells: Seq<Status>, piece: Piece, i: int)
    requires
        holes_ok(cells),
        0 <= i,
        recovered_from(cells, piece, i) is Some,
    ensures
        ({
            let pl = recovered_from(cells, piece, i)->Some_0;
            &&& pl.piece == piece
            &&& pl.square.valid()
            &&& cells[pl.square.index as int] == Status::Occupied(piece)
            &&& check_placement_spec(cells, piece, pl.square.index as int) == Some(
                (pl.rotation, pl.mirror),
            )
        }),
    decreases 45 - i,
{
    if i >= 45 {
    } else if check_placement_spec(cells, piece, i) is Some {
        assert(cells[i] == Status::Occupied(piece));
    } else {
        lemma_recovered_square_valid(cells, piece, i + 1);
    }
}

} // verus!
