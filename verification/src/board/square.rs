//! Cell identity on the 7-wide grid, stepping between neighbouring cells, and
//! the calendar reading of a pair of cells.

use vstd::prelude::*;

use crate::board::path::Direction;

verus! {

/// A cell index is usable when it lies in `0..=44` and is neither of the two
/// structural holes at indices 6 and 13.
pub open spec fn square_ok(i: int) -> bool {
    0 <= i <= 44 && i != 6 && i != 13
}

/// Returned when an integer does not name a usable square.
#[derive(Copy, Clone, PartialEq, Eq, Structural, Debug)]
pub struct IndexError;

/// One of the 43 usable cells of the grid. Indices 0..=5 and 7..=12 name the
/// months January through December; indices 14..=44 name the days 1 through 31.
#[derive(Copy, Clone, PartialEq, Eq, Structural, Debug, Hash)]
pub struct Square {
    pub index: u8,
}

/// Where a step in `dir` from square `i` lands: `None` at a grid edge or when
/// the target is a structural hole or off the 45-cell range.
pub open spec fn step_index(i: int, dir: Direction) -> Option<int> {
    if (dir is Up && i / 7 == 0) || (dir is Left && i % 7 == 0) || (dir is Right && i % 7 == 6) {
        None
    } else {
        let t = match dir {
            Direction::Up => i - 7,
            Direction::Down => i + 7,
            Direction::Left => i - 1,
            Direction::Right => i + 1,
        };
        if square_ok(t) {
            Some(t)
        } else {
            None
        }
    }
}

/// The index of the `k`-th usable square, in ascending index order.
pub open spec fn nth_square_index(k: int) -> int {
    if k < 6 {
        k
    } else if k < 12 {
        k + 1
    } else {
        k + 2
    }
}

impl Square {
    pub open spec fn valid(self) -> bool {
        square_ok(self.index as int)
    }

    /// The usable square at `index`, or an error for a hole or an
    /// out-of-range value.
    pub fn from_index(index: u8) -> (r: Result<Square, IndexError>)
        ensures
            square_ok(index as int) ==> r == Ok::<Square, IndexError>(Square { index }),
            !square_ok(index as int) ==> r == Err::<Square, IndexError>(IndexError),
    {
        if index == 6 || index == 13 || index > 44 {
            Err(IndexError)
        } else {
            Ok(Square { index })
        }
    }

    /// The neighbouring square one step away in `dir`, or `None` at an edge
    /// or a structural hole.
    pub fn step(&self, dir: Direction) -> (r: Option<Square>)
        requires
            self.valid(),
        ensures
            match r {
                Some(sq) => sq.valid() && step_index(self.index as int, dir) == Some(
                    sq.index as int,
                ),
                None => step_index(self.index as int, dir) is None,
            },
    {
        let i = self.index;
        match dir {
            Direction::Up => {
                if i / 7 == 0 {
                    return None;
                }
            },
            Direction::Left => {
                if i % 7 == 0 {
                    return None;
                }
            },
            Direction::Right => {
                if i % 7 == 6 {
                    return None;
                }
            },
            Direction::Down => {},
        }
        let t: u8 = match dir {
            Direction::Up => i - 7,
            Direction::Down => i + 7,
            Direction::Left => i - 1,
            Direction::Right => i + 1,
        };
        match Square::from_index(t) {
            Ok(sq) => Some(sq),
            Err(_) => None,
        }
    }


    /// The calendar label of this square: a month abbreviation or a day
    /// number; for display only.
    pub fn label(&self) -> &'static str {
        match self.index {
            0 => "Jan",
            1 => "Feb",
            2 => "Mar",
            3 => "Apr",
            4 => "May",
            5 => "Jun",
            7 => "Jul",
            8 => "Aug",
            9 => "Sep",
            10 => "Oct",
            11 => "Nov",
            12 => "Dec",
            14 => "1",
            15 => "2",
            16 => "3",
            17 => "4",
            18 => "5",
            19 => "6",
            20 => "7",
            21 => "8",
            22 => "9",
            23 => "10",
            24 => "11",
            25 => "12",
            26 => "13",
            27 => "14",
            28 => "15",
            29 => "16",
            30 => "17",
            31 => "18",
            32 => "19",
            33 => "20",
            34 => "21",
            35 => "22",
            36 => "23",
            37 => "24",
            38 => "25",
            39 => "26",
            40 => "27",
            41 => "28",
            42 => "29",
            43 => "30",
            44 => "31",
            _ => "",
        }
    }

    /// The calendar label centred in a three-character field; for display
    /// only.
    pub fn label_padded(&self) -> &'static str {
        match self.index {
            0 => "Jan",
            1 => "Feb",
            2 => "Mar",
            3 => "Apr",
            4 => "May",
            5 => "Jun",
            7 => "Jul",
            8 => "Aug",
            9 => "Sep",
            10 => "Oct",
            11 => "Nov",
            12 => "Dec",
            14 => " 1 ",
            15 => " 2 ",
            16 => " 3 ",
            17 => " 4 ",
            18 => " 5 ",
            19 => " 6 ",
            20 => " 7 ",
            21 => " 8 ",
            22 => " 9 ",
            23 => "10 ",
            24 => "11 ",
            25 => "12 ",
            26 => "13 ",
            27 => "14 ",
            28 => "15 ",
            29 => "16 ",
            30 => "17 ",
            31 => "18 ",
            32 => "19 ",
            33 => "20 ",
            34 => "21 ",
            35 => "22 ",
            36 => "23 ",
            37 => "24 ",
            38 => "25 ",
            39 => "26 ",
            40 => "27 ",
            41 => "28 ",
            42 => "29 ",
            43 => "30 ",
            44 => "31 ",
            _ => "   ",
        }
    }

    /// Every usable square, in ascending index order.
    pub fn squares() -> (r: Vec<Square>)
        ensures
            r@.len() == 43,
            forall|k: int|
                0 <= k < 43 ==> (#[trigger] r@[k]) == (Square {
                    index: nth_square_index(k) as u8,
                }),
            forall|k: int| 0 <= k < 43 ==> (#[trigger] r@[k]).valid(),
    {
        let mut r: Vec<Square> = Vec::new();
        let mut i: u8 = 0;
        while i < 45
            invariant
                i <= 45,
                r@.len() == if i <= 6 {
                    i as int
                } else if i <= 13 {
                    i - 1
                } else {
                    i - 2
                },
                forall|k: int|
                    0 <= k < r@.len() ==> (#[trigger] r@[k]) == (Square {
                        index: nth_square_index(k) as u8,
                    }),
            decreases 45 - i,
        {
            if i != 6 && i != 13 {
                r.push(Square { index: i });
            }
            i = i + 1;
        }
        assert forall|k: int| 0 <= k < 43 implies (#[trigger] r@[k]).valid() by {
            assert(r@[k] == (Square { index: nth_square_index(k) as u8 }));
        }
        r
    }
}

/// Calendar validity of a (month square, day square) pair: the month index
/// names a month, the day index names a day, and the day does not exceed the
/// month's real length (February: 29 days at most; April, June, September and
/// November: 30 days at most).
pub open spec fn date_ok(m: int, d: int) -> bool {
    &&& square_ok(m)
    &&& square_ok(d)
    &&& m <= 12
    &&& d >= 14
    &&& !((m == 3 || m == 5 || m == 9 || m == 11) && d == 44)
    &&& !(m == 1 && (d == 43 || d == 44))
}

/// The date after `(m, d)`, stepping through calendar-valid dates only and
/// wrapping December 31 to January 1. Any invalid input steps to January 1.
pub open spec fn next_date(m: int, d: int) -> (int, int) {
    if !date_ok(m, d) {
        (0, 14)
    } else if date_ok(m, d + 1) {
        (m, d + 1)
    } else {
        (if m == 5 {
            7
        } else if m == 12 {
            0
        } else {
            m + 1
        }, 14)
    }
}

/// The date before `(m, d)`, the inverse step of `next_date` on valid dates.
/// Any invalid input steps to January 1.
pub open spec fn prev_date(m: int, d: int) -> (int, int) {
    if !date_ok(m, d) {
        (0, 14)
    } else if d == 14 {
        let pm = if m == 0 {
            12
        } else if m == 7 {
            5
        } else {
            m - 1
        };
        let pd = if m == 2 {
            42
        } else if m == 4 || m == 7 || m == 10 || m == 12 {
            43
        } else {
            44
        };
        (pm, pd)
    } else {
        (m, d - 1)
    }
}

/// A month square paired with a day square; not every pair is a real
/// calendar date, see [`Date::is_valid`].
#[derive(Copy, Clone, PartialEq, Eq, Structural, Debug, Hash)]
pub struct Date {
    pub month: Square,
    pub day: Square,
}

impl Date {
    pub open spec fn m(self) -> int {
        self.month.index as int
    }

    pub open spec fn d(self) -> int {
        self.day.index as int
    }

    /// Whether the pair is a real calendar date.
    pub fn is_valid(&self) -> (r: bool)
        ensures
            r == date_ok(self.m(), self.d()),
    {
        let m = self.month.index;
        let d = self.day.index;
        m <= 12 && m != 6 && d >= 14 && d <= 44 && !((m == 3 || m == 5 || m == 9 || m == 11) && d
            == 44) && !(m == 1 && (d == 43 || d == 44))
    }

    /// The next valid calendar date, wrapping December 31 to January 1.
    pub fn next(&self) -> (r: Date)
        ensures
            (r.m(), r.d()) == next_date(self.m(), self.d()),
            date_ok(r.m(), r.d()),
    {
        if !self.is_valid() {
            return Date { month: Square { index: 0 }, day: Square { index: 14 } };
        }
        if self.day.index < 44 {
            let next_date = Date {
                month: self.month,
                day: Square { index: self.day.index + 1 },
            };
            if next_date.is_valid() {
                return next_date;
            }
        }
        let next_month: u8 = if self.month.index == 5 {
            7
        } else if self.month.index == 12 {
            0
        } else {
            self.month.index + 1
        };
        Date { month: Square { index: next_month }, day: Square { index: 14 } }
    }

    /// The previous valid calendar date, wrapping January 1 to December 31.
    pub fn prev(&self) -> (r: Date)
        ensures
            (r.m(), r.d()) == prev_date(self.m(), self.d()),
            date_ok(r.m(), r.d()),
    {
        if !self.is_valid() {
            return Date { month: Square { index: 0 }, day: Square { index: 14 } };
        }
        if self.day.index == 14 {
            let prev_month: u8 = if self.month.index == 0 {
                12
            } else if self.month.index == 7 {
                5
            } else {
                self.month.index - 1
            };
            let prev_day: u8 = if self.month.index == 2 {
                42
            } else if self.month.index == 4 || self.month.index == 7 || self.month.index == 10
                || self.month.index == 12 {
                43
            } else {
                44
            };
            return Date { month: Square { index: prev_month }, day: Square { index: prev_day } };
        }
        Date { month: self.month, day: Square { index: self.day.index - 1 } }
    }
}

/// Stepping forward then backward returns to the same date, for every valid
/// calendar date.
pub proof fn lemma_next_then_prev_is_identity(m: int, d: int)
    requires
        date_ok(m, d),
    ensures
        ({
            let (nm, nd) = next_date(m, d);
            prev_date(nm, nd) == (m, d)
        }),
{
}

/// Stepping backward then forward returns to the same date, for every valid
/// calendar date.
pub proof fn lemma_prev_then_next_is_identity(m: int, d: int)
    requires
        date_ok(m, d),
    ensures
        ({
            let (pm, pd) = prev_date(m, d);
            next_date(pm, pd) == (m, d)
        }),
{
}

} // verus!
