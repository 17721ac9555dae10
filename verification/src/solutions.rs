//! Generating, storing and classifying full solutions: the exhaustive
//! placement enumeration, the flat nine-byte record format, and the
//! date-keyed grouping of finished boards.

use vstd::prelude::*;

use crate::board::Board;
use crate::board::Date;
use crate::board::Direction;
use crate::board::Path;
use crate::board::Piece;
use crate::board::Rotation;
use crate::board::Square;
use crate::board::board_date;
use crate::board::can_place;
use crate::board::candidate_orients;
use crate::board::place_cells;
use crate::board::Status;
use crate::board::compact::CompactBoard;
use crate::board::compact::decode_record;
use crate::board::path::orient_dirs;
use crate::board::placement::rotation_index;
use crate::board::square::nth_square_index;

verus! {

#[verifier::external_type_specification]
#[verifier::external_body]
pub struct ExErrorKind(std::io::ErrorKind);

/// Relies on `std::io::ErrorKind::UnexpectedEof` being a plain unit variant:
/// the error kind reported for data that ends in the middle of a record.
#[verifier::external_body]
fn eof_kind() -> std::io::ErrorKind {
    std::io::ErrorKind::UnexpectedEof
}

/// Why stored solution data could not be read back.
#[derive(Debug)]
pub enum DataError {
    /// A record decoded to an impossible board: corrupt or inconsistent
    /// stored data.
    BoardError,
    /// The storage medium failed, with the underlying error kind; also
    /// reported when the data ends in the middle of a nine-byte record.
    IoError(std::io::ErrorKind),
}

/// The length of one stored record, in bytes.
pub const RECORD_BYTES: usize = 9;

/// The bytes of the record at position `c` of a flat record buffer.
pub open spec fn record_at(bytes: Seq<u8>, c: int) -> Seq<u8> {
    bytes.subrange(9 * c, 9 * c + 9)
}

/// Whether every record of a flat buffer of `n` records decodes.
pub open spec fn all_records_decode(bytes: Seq<u8>, n: int) -> bool {
    forall|c: int| 0 <= c < n ==> (#[trigger] decode_record(record_at(bytes, c))) is Some
}

/// Decodes a flat buffer of back-to-back nine-byte records. The buffer
/// length must be a multiple of nine — a trailing partial record is treated
/// as an error, never silently dropped, since silent truncation can mask a
/// corrupted solution file.
pub fn read_boards(bytes: &[u8]) -> (r: Result<Vec<Board>, DataError>)
    ensures
        match r {
            Ok(boards) => {
                &&& bytes@.len() % 9 == 0
                &&& all_records_decode(bytes@, bytes@.len() as int / 9)
                &&& boards@.len() == bytes@.len() / 9
                &&& forall|c: int|
                    0 <= c < boards@.len() ==> (#[trigger] boards@[c])@ == decode_record(
                        record_at(bytes@, c),
                    )->Some_0
            },
            Err(DataError::IoError(_)) => bytes@.len() % 9 != 0,
            Err(DataError::BoardError) => bytes@.len() % 9 == 0 && !all_records_decode(
                bytes@,
                bytes@.len() as int / 9,
            ),
        },
{
    if bytes.len() % RECORD_BYTES != 0 {
        return Err(DataError::IoError(eof_kind()));
    }
    let n = bytes.len() / RECORD_BYTES;
    let mut boards: Vec<Board> = Vec::new();
    let mut c: usize = 0;
    let mut off: usize = 0;
    while c < n
        invariant
            c <= n,
            n == bytes@.len() / 9,
            bytes@.len() == 9 * n,
            bytes@.len() % 9 == 0,
            off == 9 * c,
            off <= bytes@.len(),
            bytes@.len() <= usize::MAX,
            boards@.len() == c,
            forall|k: int| 0 <= k < c ==> (#[trigger] decode_record(record_at(bytes@, k))) is Some,
            forall|k: int|
                0 <= k < c ==> (#[trigger] boards@[k])@ == decode_record(
                    record_at(bytes@, k),
                )->Some_0,
        decreases n - c,
    {
        proof {
            assert(9 * (c as int) + 9 <= 9 * (n as int)) by (nonlinear_arith)
                requires
                    c < n,
            ;
        }
        let chunk = vstd::slice::slice_subrange(bytes, off, off + 9);
        assert(chunk@ == record_at(bytes@, c as int));
        let compact = CompactBoard::from_bytes(chunk);
        match compact.to_board() {
            Ok(board) => {
                boards.push(board);
            },
            Err(_) => {
                proof {
                    assert(decode_record(record_at(bytes@, c as int)) is None);
                }
                return Err(DataError::BoardError);
            },
        }
        c = c + 1;
        off = off + 9;
    }
    Ok(boards)
}

/// The cell states of each board of `bs`, in order.
pub open spec fn views(bs: Seq<Board>) -> Seq<Seq<Status>> {
    bs.map_values(|b: Board| b@)
}

/// The date-and-group reading of raw entry pairs.
pub open spec fn pairs_view(es: Seq<(Date, Vec<Board>)>) -> Seq<(Date, Seq<Seq<Status>>)> {
    es.map_values(|e: (Date, Vec<Board>)| (e.0, e.1@.map_values(|b: Board| b@)))
}

/// The group keyed by `d`, scanning the entries in order.
pub open spec fn lookup_group(es: Seq<(Date, Seq<Seq<Status>>)>, d: Date) -> Option<
    Seq<Seq<Status>>,
>
    decreases es.len(),
{
    if es.len() == 0 {
        None
    } else if es[0].0 == d {
        Some(es[0].1)
    } else {
        lookup_group(es.drop_first(), d)
    }
}

/// The boards among the first `n` of `vs` that solve for date `d`, in input
/// order.
pub open spec fn group_of(vs: Seq<Seq<Status>>, n: int, d: Date) -> Seq<Seq<Status>>
    decreases n,
{
    if n <= 0 {
        Seq::empty()
    } else {
        let r = group_of(vs, n - 1, d);
        if board_date(vs[n - 1]) == Some(d) {
            r.push(vs[n - 1])
        } else {
            r
        }
    }
}

/// How many of the first `n` boards of `vs` solve for some date.
pub open spec fn count_solved(vs: Seq<Seq<Status>>, n: int) -> int
    decreases n,
{
    if n <= 0 {
        0
    } else {
        count_solved(vs, n - 1) + if board_date(vs[n - 1]) is Some {
            1int
        } else {
            0int
        }
    }
}

/// The total number of boards over all groups.
pub open spec fn total_size(es: Seq<(Date, Seq<Seq<Status>>)>) -> int
    decreases es.len(),
{
    if es.len() == 0 {
        0
    } else {
        es[0].1.len() + total_size(es.drop_first())
    }
}

/// No two entries share a date.
pub open spec fn distinct_dates(es: Seq<(Date, Seq<Seq<Status>>)>) -> bool {
    forall|i: int, j: int| 0 <= i < j < es.len() ==> (#[trigger] es[i]).0 != (#[trigger] es[j]).0
}

/// Replacing the group of entry `idx` rewires exactly that date's lookup and
/// leaves every other date's lookup unchanged.
proof fn lemma_lookup_update(es: Seq<(Date, Seq<Seq<Status>>)>, idx: int, g: Seq<Seq<Status>>)
    requires
        0 <= idx < es.len(),
        forall|k: int| 0 <= k < idx ==> (#[trigger] es[k]).0 != es[idx].0,
    ensures
        lookup_group(es.update(idx, (es[idx].0, g)), es[idx].0) == Some(g),
        forall|d: Date|
            d != es[idx].0 ==> #[trigger] lookup_group(es.update(idx, (es[idx].0, g)), d)
                == lookup_group(es, d),
    decreases idx,
{
    let upd = es.update(idx, (es[idx].0, g));
    if idx == 0 {
        assert(upd.drop_first() =~= es.drop_first());
        assert forall|d: Date| d != es[idx].0 implies #[trigger] lookup_group(upd, d)
            == lookup_group(es, d) by {
            assert(lookup_group(upd, d) == lookup_group(upd.drop_first(), d));
            assert(lookup_group(es, d) == lookup_group(es.drop_first(), d));
        }
    } else {
        assert(upd[0] == es[0]);
        assert(upd.drop_first() =~= es.drop_first().update(idx - 1, (es[idx].0, g)));
        assert(es.drop_first()[idx - 1] == es[idx]);
        lemma_lookup_update(es.drop_first(), idx - 1, g);
        assert(es[0].0 != es[idx].0);
        assert(lookup_group(upd, es[idx].0) == lookup_group(upd.drop_first(), es[idx].0));
        assert forall|d: Date| d != es[idx].0 implies #[trigger] lookup_group(upd, d)
            == lookup_group(es, d) by {
            if d != es[0].0 {
                assert(lookup_group(upd, d) == lookup_group(upd.drop_first(), d));
                assert(lookup_group(es, d) == lookup_group(es.drop_first(), d));
            }
        }
    }
}

/// Replacing the group of entry `idx` changes the total count by the size
/// difference of that one group.
proof fn lemma_total_update(es: Seq<(Date, Seq<Seq<Status>>)>, idx: int, g: Seq<Seq<Status>>)
    requires
        0 <= idx < es.len(),
    ensures
        total_size(es.update(idx, (es[idx].0, g))) == total_size(es) - es[idx].1.len() + g.len(),
    decreases idx,
{
    let upd = es.update(idx, (es[idx].0, g));
    if idx == 0 {
        assert(upd.drop_first() =~= es.drop_first());
    } else {
        assert(upd[0] == es[0]);
        assert(upd.drop_first() =~= es.drop_first().update(idx - 1, (es[idx].0, g)));
        assert(es.drop_first()[idx - 1] == es[idx]);
        lemma_total_update(es.drop_first(), idx - 1, g);
    }
}

/// Appending an entry for a date with no group yet makes that date's lookup
/// find it and leaves every other date's lookup unchanged.
proof fn lemma_lookup_push(es: Seq<(Date, Seq<Seq<Status>>)>, d: Date, g: Seq<Seq<Status>>)
    requires
        lookup_group(es, d) is None,
    ensures
        lookup_group(es.push((d, g)), d) == Some(g),
        forall|d2: Date|
            d2 != d ==> #[trigger] lookup_group(es.push((d, g)), d2) == lookup_group(es, d2),
    decreases es.len(),
{
    let pu = es.push((d, g));
    if es.len() == 0 {
        assert(pu.drop_first() =~= Seq::<(Date, Seq<Seq<Status>>)>::empty());
        assert(pu[0] == (d, g));
        assert forall|d2: Date| d2 != d implies #[trigger] lookup_group(pu, d2)
            == lookup_group(es, d2) by {
            assert(lookup_group(pu, d2) == lookup_group(pu.drop_first(), d2));
        }
    } else {
        assert(pu[0] == es[0]);
        assert(pu.drop_first() =~= es.drop_first().push((d, g)));
        lemma_lookup_push(es.drop_first(), d, g);
        assert(es[0].0 != d);
        assert forall|d2: Date| d2 != d implies #[trigger] lookup_group(pu, d2)
            == lookup_group(es, d2) by {
            if d2 != es[0].0 {
                assert(lookup_group(pu, d2) == lookup_group(pu.drop_first(), d2));
                assert(lookup_group(es, d2) == lookup_group(es.drop_first(), d2));
            }
        }
    }
}

/// Appending an entry grows the total count by the size of its group.
proof fn lemma_total_push(es: Seq<(Date, Seq<Seq<Status>>)>, d: Date, g: Seq<Seq<Status>>)
    ensures
        total_size(es.push((d, g))) == total_size(es) + g.len(),
    decreases es.len(),
{
    let pu = es.push((d, g));
    assert(total_size(pu) == pu[0].1.len() + total_size(pu.drop_first()));
    if es.len() == 0 {
        assert(pu.drop_first() =~= Seq::<(Date, Seq<Seq<Status>>)>::empty());
        assert(pu[0] == (d, g));
        assert(total_size(pu.drop_first()) == 0);
    } else {
        assert(pu[0] == es[0]);
        assert(pu.drop_first() =~= es.drop_first().push((d, g)));
        lemma_total_push(es.drop_first(), d, g);
        assert(total_size(es) == es[0].1.len() + total_size(es.drop_first()));
    }
}

/// A date whose lookup finds nothing keys no entry at all.
proof fn lemma_lookup_none_no_key(es: Seq<(Date, Seq<Seq<Status>>)>, d: Date)
    requires
        lookup_group(es, d) is None,
    ensures
        forall|i: int| 0 <= i < es.len() ==> (#[trigger] es[i]).0 != d,
    decreases es.len(),
{
    if es.len() > 0 {
        lemma_lookup_none_no_key(es.drop_first(), d);
        assert forall|i: int| 0 <= i < es.len() implies (#[trigger] es[i]).0 != d by {
            if i > 0 {
                assert(es.drop_first()[i - 1] == es[i]);
            }
        }
    }
}

/// A collection of finished boards keyed by the date each solves for, in
/// order of first appearance.
#[derive(Debug)]
pub struct DateMap {
    entries: Vec<(Date, Vec<Board>)>,
}

impl DateMap {
    /// The entries: each date paired with the cell states of its group.
    pub closed spec fn entries_view(self) -> Seq<(Date, Seq<Seq<Status>>)> {
        pairs_view(self.entries@)
    }

    /// Holds of every date map: no two entries share a date, no group is
    /// empty, and every board of a group solves for its group's date.
    #[verifier::type_invariant]
    pub open spec fn wf(self) -> bool {
        &&& distinct_dates(self.entries_view())
        &&& forall|i: int|
            0 <= i < self.entries_view().len() ==> (#[trigger] self.entries_view()[i]).1.len()
                >= 1
        &&& forall|i: int, k: int|
            0 <= i < self.entries_view().len() && 0 <= k < self.entries_view()[i].1.len()
                ==> board_date(#[trigger] self.entries_view()[i].1[k]) == Some(
                self.entries_view()[i].0,
            )
    }

    /// How many distinct dates have a group.
    pub fn len(&self) -> (r: usize)
        ensures
            r == self.entries_view().len(),
    {
        self.entries.len()
    }

    /// The group of boards solving for `date`, or `None` if no stored board
    /// solves for it.
    pub fn get(&self, date: Date) -> (r: Option<&Vec<Board>>)
        ensures
            match r {
                Some(g) => lookup_group(self.entries_view(), date) == Some(
                    g@.map_values(|b: Board| b@),
                ) && g@.len() >= 1,
                None => lookup_group(self.entries_view(), date) is None,
            },
    {
        proof {
            use_type_invariant(self);
        }
        let ghost ev = self.entries_view();
        let mut i: usize = 0;
        proof {
            assert(ev.skip(0) =~= ev);
        }
        while i < self.entries.len()
            invariant
                i <= self.entries@.len(),
                ev == self.entries_view(),
                self.wf(),
                lookup_group(ev, date) == lookup_group(ev.skip(i as int), date),
            decreases self.entries@.len() - i,
        {
            let entry = &self.entries[i];
            proof {
                assert(ev.skip(i as int)[0] == ev[i as int]);
                assert(ev.skip(i as int).drop_first() =~= ev.skip(i as int + 1));
            }
            if date_eq(entry.0, date) {
                return Some(&entry.1);
            }
            i = i + 1;
        }
        proof {
            assert(ev.skip(self.entries@.len() as int) =~= Seq::<
                (Date, Seq<Seq<Status>>),
            >::empty());
        }
        None
    }

    /// Every date that has a group, in order of first appearance.
    pub fn dates(&self) -> (r: Vec<Date>)
        ensures
            r@.len() == self.entries_view().len(),
            forall|i: int|
                0 <= i < r@.len() ==> #[trigger] r@[i] == self.entries_view()[i].0,
    {
        let mut r: Vec<Date> = Vec::new();
        let mut i: usize = 0;
        while i < self.entries.len()
            invariant
                i <= self.entries@.len(),
                r@.len() == i,
                forall|k: int|
                    0 <= k < i ==> #[trigger] r@[k] == self.entries_view()[k].0,
            decreases self.entries@.len() - i,
        {
            r.push(self.entries[i].0);
            i = i + 1;
        }
        r
    }
}

/// The position of the entry keyed by `d`, scanning in order.
fn find_entry(entries: &Vec<(Date, Vec<Board>)>, d: Date) -> (r: Option<usize>)
    ensures
        match r {
            Some(idx) => {
                &&& (idx as int) < pairs_view(entries@).len()
                &&& pairs_view(entries@)[idx as int].0 == d
                &&& forall|k: int|
                    0 <= k < idx ==> (#[trigger] pairs_view(entries@)[k]).0 != d
                &&& lookup_group(pairs_view(entries@), d) == Some(
                    pairs_view(entries@)[idx as int].1,
                )
            },
            None => lookup_group(pairs_view(entries@), d) is None,
        },
{
    let ghost ev = pairs_view(entries@);
    proof {
        assert(ev.skip(0) =~= ev);
    }
    let mut idx: usize = 0;
    while idx < entries.len()
        invariant
            idx <= entries@.len(),
            ev == pairs_view(entries@),
            lookup_group(ev, d) == lookup_group(ev.skip(idx as int), d),
            forall|k: int| 0 <= k < idx ==> (#[trigger] ev[k]).0 != d,
        decreases entries@.len() - idx,
    {
        proof {
            assert(ev.skip(idx as int)[0] == ev[idx as int]);
            assert(ev.skip(idx as int).drop_first() =~= ev.skip(idx as int + 1));
        }
        if date_eq(entries[idx].0, d) {
            return Some(idx);
        }
        idx = idx + 1;
    }
    proof {
        assert(ev.skip(entries@.len() as int) =~= Seq::<(Date, Seq<Seq<Status>>)>::empty());
    }
    None
}

/// Structural equality on two dates.
fn date_eq(a: Date, b: Date) -> (r: bool)
    ensures
        r == (a == b),
{
    a.month.index == b.month.index && a.day.index == b.day.index
}

/// Buckets every board by the date it solves for, in input order; boards
/// that solve no date are dropped. Classification is a partition: the groups
/// together hold exactly the input boards whose `solved_for` is `Some`.
pub fn classify(boards: Vec<Board>) -> (r: DateMap)
    ensures
        forall|d: Date|
            #[trigger] lookup_group(r.entries_view(), d) == (if group_of(
                views(boards@),
                boards@.len() as int,
                d,
            ).len() == 0 {
                None::<Seq<Seq<Status>>>
            } else {
                Some(group_of(views(boards@), boards@.len() as int, d))
            }),
        total_size(r.entries_view()) == count_solved(views(boards@), boards@.len() as int),
{
    let ghost vs = views(boards@);
    let mut entries: Vec<(Date, Vec<Board>)> = Vec::new();
    let mut t: usize = 0;
    while t < boards.len()
        invariant
            t <= boards@.len(),
            vs == views(boards@),
            distinct_dates(pairs_view(entries@)),
            forall|i: int|
                0 <= i < pairs_view(entries@).len() ==> (#[trigger] pairs_view(entries@)[i]).1.len()
                    >= 1,
            forall|i: int, k: int|
                0 <= i < pairs_view(entries@).len() && 0 <= k < pairs_view(entries@)[i].1.len()
                    ==> board_date(#[trigger] pairs_view(entries@)[i].1[k]) == Some(
                    pairs_view(entries@)[i].0,
                ),
            forall|d: Date|
                #[trigger] lookup_group(pairs_view(entries@), d) == (if group_of(
                    vs,
                    t as int,
                    d,
                ).len() == 0 {
                    None::<Seq<Seq<Status>>>
                } else {
                    Some(group_of(vs, t as int, d))
                }),
            total_size(pairs_view(entries@)) == count_solved(vs, t as int),
        decreases boards@.len() - t,
    {
        let b = &boards[t];
        proof {
            assert(vs[t as int] == boards@[t as int]@);
        }
        match b.solved_for() {
            None => {
                proof {
                    assert forall|d: Date|
                        #[trigger] group_of(vs, t + 1, d) == group_of(vs, t as int, d) by {}
                }
            },
            Some(d) => {
                let bc = b.clone();
                let ghost ev = pairs_view(entries@);
                let ghost old_raw = entries@;
                match find_entry(&entries, d) {
                    Some(idx) => {
                        let mut pair = entries.remove(idx);
                        pair.1.push(bc);
                        let ghost ps = pair;
                        entries.insert(idx, pair);
                        proof {
                            let g2 = ev[idx as int].1.push(boards@[t as int]@);
                            assert(entries@ =~= old_raw.update(idx as int, ps));
                            assert(ps.0 == d);
                            assert(ps.1@ =~= old_raw[idx as int].1@.push(bc));
                            assert(ps.1@.map_values(|bb: Board| bb@) =~= g2);
                            assert(pairs_view(entries@) =~= ev.update(idx as int, (d, g2)));
                            lemma_lookup_update(ev, idx as int, g2);
                            lemma_total_update(ev, idx as int, g2);
                            assert forall|i: int|
                                0 <= i < pairs_view(entries@).len() implies (#[trigger] pairs_view(
                                entries@,
                            )[i]).0 == ev[i].0 by {}
                            assert(distinct_dates(pairs_view(entries@)));
                            assert(group_of(vs, t + 1, d) =~= group_of(vs, t as int, d).push(
                                vs[t as int],
                            ));
                            assert forall|d2: Date|
                                d2 != d implies #[trigger] group_of(vs, t + 1, d2) == group_of(
                                vs,
                                t as int,
                                d2,
                            ) by {}
                        }
                    },
                    None => {
                        let mut group: Vec<Board> = Vec::new();
                        group.push(bc);
                        entries.push((d, group));
                        proof {
                            let g2 = seq![boards@[t as int]@];
                            assert(pairs_view(entries@) =~~= ev.push((d, g2)));
                            lemma_lookup_push(ev, d, g2);
                            lemma_lookup_none_no_key(ev, d);
                            assert(distinct_dates(pairs_view(entries@)));
                            lemma_total_push(ev, d, g2);
                            assert(group_of(vs, t + 1, d) =~= group_of(vs, t as int, d).push(
                                vs[t as int],
                            ));
                            assert(group_of(vs, t as int, d).len() == 0);
                            assert(group_of(vs, t + 1, d) =~= g2);
                            assert forall|d2: Date|
                                d2 != d implies #[trigger] group_of(vs, t + 1, d2) == group_of(
                                vs,
                                t as int,
                                d2,
                            ) by {}
                        }
                    },
                }
            },
        }
        t = t + 1;
    }
    DateMap { entries }
}

/// The orientation walks of `p`: one walk per candidate orientation, in the
/// fixed trial order.
pub open spec fn orientation_dirs_of(p: Piece) -> Seq<Seq<Direction>> {
    candidate_orients(p).map_values(
        |c: (Rotation, bool)| orient_dirs(p, rotation_index(c.0) as nat, c.1),
    )
}

/// The boards reached by anchoring the walk `path` of `piece` on each of
/// the first `k` usable squares of `cells`, in ascending square order.
pub open spec fn expand_squares(
    cells: Seq<Status>,
    piece: Piece,
    path: Seq<Direction>,
    k: int,
) -> Seq<Seq<Status>>
    decreases k,
{
    if k <= 0 {
        Seq::empty()
    } else {
        let r = expand_squares(cells, piece, path, k - 1);
        let sq = nth_square_index(k - 1);
        if can_place(cells, sq, path) {
            r.push(place_cells(cells, piece, sq, path))
        } else {
            r
        }
    }
}

/// The boards reached from `cells` by the first `j` orientation walks of
/// `piece`, each tried on every usable anchor square.
pub open spec fn expand_orients(cells: Seq<Status>, piece: Piece, j: int) -> Seq<Seq<Status>>
    decreases j,
{
    if j <= 0 {
        Seq::empty()
    } else {
        expand_orients(cells, piece, j - 1) + expand_squares(
            cells,
            piece,
            orientation_dirs_of(piece)[j - 1],
            43,
        )
    }
}

/// The boards reached by placing `piece` in every legal way on each of the
/// first `t` boards of `bs`.
pub open spec fn expand_boards(bs: Seq<Seq<Status>>, piece: Piece, t: int) -> Seq<Seq<Status>>
    decreases t,
{
    if t <= 0 {
        Seq::empty()
    } else {
        expand_boards(bs, piece, t - 1) + expand_orients(
            bs[t - 1],
            piece,
            candidate_orients(piece).len() as int,
        )
    }
}

/// Every board reached from `cells0` by placing the first `n` pieces of
/// `pieces` in order, one stage per piece.
pub open spec fn generate_upto(cells0: Seq<Status>, pieces: Seq<Piece>, n: int) -> Seq<
    Seq<Status>,
>
    decreases n,
{
    if n <= 0 {
        seq![cells0]
    } else {
        let prev = generate_upto(cells0, pieces, n - 1);
        expand_boards(prev, pieces[n - 1], prev.len() as int)
    }
}

/// The symmetry-reduced orientation walks of `piece`, as paths, in the
/// fixed trial order.
fn orientation_paths(piece: Piece) -> (r: Vec<Path>)
    ensures
        r@.len() == candidate_orients(piece).len(),
        forall|j: int| 0 <= j < r@.len() ==> (#[trigger] r@[j])@ == orientation_dirs_of(piece)[j],
{
    let rots = Rotation::all_by_symmetry(piece.rotational_symmetry());
    let base = Path::from_piece(piece);
    let mut r: Vec<Path> = Vec::new();
    let ghost cands = candidate_orients(piece);
    let mut j: usize = 0;
    while j < rots.len()
        invariant
            j <= rots@.len(),
            rots@ == crate::board::placement::rotations_by_symmetry(
                crate::board::piece::rotational_symmetry_spec(piece),
            ),
            base@ == crate::board::piece::canonical_dirs(piece),
            cands == candidate_orients(piece),
            r@.len() == j,
            forall|k: int|
                0 <= k < j ==> (#[trigger] r@[k])@ == orientation_dirs_of(piece)[k],
        decreases rots@.len() - j,
    {
        proof {
            assert(cands[j as int] == (rots@[j as int], false));
        }
        r.push(base.rotate(rots[j]));
        j = j + 1;
    }
    if !piece.mirror_symmetric() {
        let mirrored = base.mirror();
        let ghost n = rots@.len() as int;
        let mut t: usize = 0;
        while t < rots.len()
            invariant
                t <= rots@.len(),
                n == rots@.len() as int,
                rots@ == crate::board::placement::rotations_by_symmetry(
                    crate::board::piece::rotational_symmetry_spec(piece),
                ),
                mirrored@ == crate::board::path::mirror_seq(
                    crate::board::piece::canonical_dirs(piece),
                ),
                !crate::board::piece::mirror_symmetric_spec(piece),
                cands == candidate_orients(piece),
                r@.len() == n + t,
                forall|k: int|
                    0 <= k < n + t ==> (#[trigger] r@[k])@ == orientation_dirs_of(piece)[k],
            decreases rots@.len() - t,
        {
            proof {
                assert(cands[n + t] == (rots@[t as int], true));
            }
            r.push(mirrored.rotate(rots[t]));
            t = t + 1;
        }
    }
    r
}

/// Every legal full placement of `pieces`, in order, onto `starting_board`:
/// one stage per piece, each stage placing its piece in every legal
/// orientation and anchor on every board the previous stage produced. The
/// result set does not depend on the piece order, only its arrangement
/// does.
pub fn generate(starting_board: Board, pieces: Vec<Piece>) -> (r: Vec<Board>)
    ensures
        views(r@) == generate_upto(starting_board@, pieces@, pieces@.len() as int),
{
    let ghost cells0 = starting_board@;
    let mut frontier: Vec<Board> = Vec::new();
    frontier.push(starting_board);
    proof {
        assert(views(frontier@) =~~= generate_upto(cells0, pieces@, 0));
    }
    let mut n: usize = 0;
    while n < pieces.len()
        invariant
            n <= pieces@.len(),
            views(frontier@) == generate_upto(cells0, pieces@, n as int),
        decreases pieces@.len() - n,
    {
        let piece = pieces[n];
        let paths = orientation_paths(piece);
        let sqs = Square::squares();
        let mut next: Vec<Board> = Vec::new();
        let mut t: usize = 0;
        while t < frontier.len()
            invariant
                t <= frontier@.len(),
                paths@.len() == candidate_orients(piece).len(),
                forall|j: int|
                    0 <= j < paths@.len() ==> (#[trigger] paths@[j])@ == orientation_dirs_of(
                        piece,
                    )[j],
                sqs@.len() == 43,
                forall|k: int|
                    0 <= k < 43 ==> (#[trigger] sqs@[k]) == (Square {
                        index: nth_square_index(k) as u8,
                    }),
                forall|k: int| 0 <= k < 43 ==> (#[trigger] sqs@[k]).valid(),
                views(next@) == expand_boards(views(frontier@), piece, t as int),
            decreases frontier@.len() - t,
        {
            let board = &frontier[t];
            let ghost bview = frontier@[t as int]@;
            proof {
                assert(views(frontier@)[t as int] == bview);
            }
            let mut j: usize = 0;
            proof {
                assert(views(next@) =~~= expand_boards(views(frontier@), piece, t as int)
                    + expand_orients(bview, piece, 0));
            }
            while j < paths.len()
                invariant
                    j <= paths@.len(),
                    t < frontier@.len(),
                    *board == frontier@[t as int],
                    bview == frontier@[t as int]@,
                    views(frontier@)[t as int] == bview,
                    paths@.len() == candidate_orients(piece).len(),
                    forall|jj: int|
                        0 <= jj < paths@.len() ==> (#[trigger] paths@[jj])@
                            == orientation_dirs_of(piece)[jj],
                    sqs@.len() == 43,
                    forall|k: int|
                        0 <= k < 43 ==> (#[trigger] sqs@[k]) == (Square {
                            index: nth_square_index(k) as u8,
                        }),
                    forall|k: int| 0 <= k < 43 ==> (#[trigger] sqs@[k]).valid(),
                    views(next@) == expand_boards(views(frontier@), piece, t as int)
                        + expand_orients(bview, piece, j as int),
                decreases paths@.len() - j,
            {
                let path = &paths[j];
                let mut k: usize = 0;
                proof {
                    assert(views(next@) =~~= expand_boards(views(frontier@), piece, t as int)
                        + expand_orients(bview, piece, j as int) + expand_squares(
                        bview,
                        piece,
                        paths@[j as int]@,
                        0,
                    ));
                }
                while k < 43
                    invariant
                        k <= 43,
                        j < paths@.len(),
                        t < frontier@.len(),
                        *board == frontier@[t as int],
                        bview == frontier@[t as int]@,
                        *path == paths@[j as int],
                        sqs@.len() == 43,
                        forall|kk: int|
                            0 <= kk < 43 ==> (#[trigger] sqs@[kk]) == (Square {
                                index: nth_square_index(kk) as u8,
                            }),
                        forall|kk: int| 0 <= kk < 43 ==> (#[trigger] sqs@[kk]).valid(),
                        views(next@) == expand_boards(views(frontier@), piece, t as int)
                            + expand_orients(bview, piece, j as int) + expand_squares(
                            bview,
                            piece,
                            paths@[j as int]@,
                            k as int,
                        ),
                    decreases 43 - k,
                {
                    let ghost before = views(next@);
                    match board.place(piece, sqs[k], path) {
                        Some(new_board) => {
                            next.push(new_board);
                            proof {
                                assert(views(next@) =~~= before.push(
                                    place_cells(
                                        bview,
                                        piece,
                                        nth_square_index(k as int),
                                        paths@[j as int]@,
                                    ),
                                ));
                                assert(views(next@) =~~= expand_boards(
                                    views(frontier@),
                                    piece,
                                    t as int,
                                ) + expand_orients(bview, piece, j as int) + expand_squares(
                                    bview,
                                    piece,
                                    paths@[j as int]@,
                                    k + 1,
                                ));
                            }
                        },
                        None => {
                            proof {
                                assert(expand_squares(bview, piece, paths@[j as int]@, k + 1)
                                    =~~= expand_squares(bview, piece, paths@[j as int]@, k as int));
                            }
                        },
                    }
                    k = k + 1;
                }
                proof {
                    assert(views(next@) =~~= expand_boards(views(frontier@), piece, t as int)
                        + expand_orients(bview, piece, j + 1));
                }
                j = j + 1;
            }
            proof {
                assert(views(next@) =~~= expand_boards(views(frontier@), piece, t + 1));
            }
            t = t + 1;
        }
        proof {
            assert(views(next@) =~~= expand_boards(
                generate_upto(cells0, pieces@, n as int),
                piece,
                generate_upto(cells0, pieces@, n as int).len() as int,
            ));
            assert(views(next@) =~~= generate_upto(cells0, pieces@, n + 1));
        }
        frontier = next;
        n = n + 1;
    }
    frontier
}

} // verus!
