//! Reading a calendar date from command-line text: either an explicit
//! month-and-day, or "today" with an optional day offset resolved against
//! the system clock.
//!
//! Parsing works on the input's bytes after Unicode lowercasing; leading
//! and trailing whitespace and the month-name run are read as ASCII, so a
//! non-ASCII letter ends a month name.

use vstd::prelude::*;
use vstd::string::StringSliceAdditionalSpecFns;

use chrono::Datelike;

use crate::board::Date;
use crate::board::Square;
use crate::board::square::date_ok;

verus! {

/// What Unicode lowercasing makes of a string, byte for byte; the result
/// depends on the input characters alone.
pub uninterp spec fn lower_of(s: Seq<u8>) -> Seq<u8>;

/// Relies on `str::to_lowercase`: the Unicode lowercase mapping of the
/// input, a function of its characters alone.
#[verifier::external_body]
fn lower_str(s: &str) -> (r: String)
    ensures
        vstd::utf8::encode_utf8(r@) == lower_of(s.spec_bytes()),
{
    s.to_lowercase()
}

/// The month (1 through 12) that a byte string names, if any; the result
/// depends on the bytes alone.
pub uninterp spec fn month_number_of(s: Seq<u8>) -> Option<u8>;

/// Relies on chrono's `Month` name parsing (`Month::from_str` through
/// `str::parse`, then `Month::number_from_month`): accepts English month
/// names and their three-letter abbreviations, case-insensitively, and
/// numbers the months 1 through 12.
#[verifier::external_body]
fn month_from_name(b: &[u8]) -> (r: Option<u8>)
    ensures
        r == month_number_of(b@),
        r is Some ==> 1 <= r->0 <= 12,
{
    match core::str::from_utf8(b) {
        Ok(s) => match s.parse::<chrono::Month>() {
            Ok(m) => Some(m.number_from_month() as u8),
            Err(_) => None,
        },
        Err(_) => None,
    }
}

/// Relies on chrono's `Local::now`, `DateTime::date_naive`,
/// `TimeDelta::try_days` and `NaiveDate::checked_add_signed`: the local
/// calendar date `days` days from today, as a zero-based month and a
/// zero-based day of month, or `None` when the offset leaves the supported
/// range. The result depends on the clock, so only the ranges are promised.
#[verifier::external_body]
fn today_with_offset(days: i64) -> (r: Option<(u8, u8)>)
    ensures
        r is Some ==> (r->0).0 < 12 && (r->0).1 < 31,
{
    let today = chrono::Local::now().date_naive();
    match chrono::Duration::try_days(days) {
        Some(delta) => match today.checked_add_signed(delta) {
            Some(date) => Some((date.month0() as u8, date.day0() as u8)),
            None => None,
        },
        None => None,
    }
}

/// Whether `b` is an ASCII whitespace byte.
pub open spec fn is_ws(b: u8) -> bool {
    b == 32 || (9 <= b <= 13)
}

/// Whether `b` is an ASCII decimal digit.
pub open spec fn is_digit(b: u8) -> bool {
    48 <= b <= 57
}

/// Whether `b` is an ASCII lowercase letter.
pub open spec fn is_lower_alpha(b: u8) -> bool {
    97 <= b <= 122
}

/// `s` with its leading ASCII whitespace removed.
pub open spec fn trim_front_spec(s: Seq<u8>) -> Seq<u8>
    decreases s.len(),
{
    if s.len() > 0 && is_ws(s[0]) {
        trim_front_spec(s.drop_first())
    } else {
        s
    }
}

/// `s` with its trailing ASCII whitespace removed.
pub open spec fn trim_back_spec(s: Seq<u8>) -> Seq<u8>
    decreases s.len(),
{
    if s.len() > 0 && is_ws(s[s.len() - 1]) {
        trim_back_spec(s.drop_last())
    } else {
        s
    }
}

/// `s` with ASCII whitespace removed from both ends.
pub open spec fn trim_spec(s: Seq<u8>) -> Seq<u8> {
    trim_back_spec(trim_front_spec(s))
}

/// Whether `s` is one or more decimal digits.
pub open spec fn digits_ok(s: Seq<u8>) -> bool {
    s.len() > 0 && forall|i: int| 0 <= i < s.len() ==> is_digit(#[trigger] s[i])
}

/// The number the digit string `s` denotes.
pub open spec fn digits_val(s: Seq<u8>) -> int
    decreases s.len(),
{
    if s.len() == 0 {
        0
    } else {
        digits_val(s.drop_last()) * 10 + (s[s.len() - 1] - 48)
    }
}

/// The number an unsigned decimal literal denotes: an optional plus sign,
/// then digits.
pub open spec fn uint_parse(s: Seq<u8>) -> Option<int> {
    let body = if s.len() > 0 && s[0] == 43 {
        s.drop_first()
    } else {
        s
    };
    if digits_ok(body) {
        Some(digits_val(body))
    } else {
        None
    }
}

/// The number a signed decimal literal denotes: an optional plus or minus
/// sign, then digits.
pub open spec fn sint_parse(s: Seq<u8>) -> Option<int> {
    if s.len() > 0 && s[0] == 45 {
        if digits_ok(s.drop_first()) {
            Some(-digits_val(s.drop_first()))
        } else {
            None
        }
    } else {
        uint_parse(s)
    }
}

/// The `i64` a signed decimal literal denotes, or `None` when it is
/// malformed or out of range.
pub open spec fn i64_parse(s: Seq<u8>) -> Option<i64> {
    match sint_parse(s) {
        Some(v) => if i64::MIN <= v <= i64::MAX {
            Some(v as i64)
        } else {
            None
        },
        None => None,
    }
}

/// The `usize` an unsigned decimal literal denotes, or `None` when it is
/// malformed or out of range.
pub open spec fn usize_parse(s: Seq<u8>) -> Option<int> {
    match uint_parse(s) {
        Some(v) => if v <= usize::MAX {
            Some(v)
        } else {
            None
        },
        None => None,
    }
}

/// The length of the leading run of ASCII lowercase letters.
pub open spec fn alpha_len(s: Seq<u8>) -> int
    decreases s.len(),
{
    if s.len() > 0 && is_lower_alpha(s[0]) {
        1 + alpha_len(s.drop_first())
    } else {
        0
    }
}

/// The grid index of month number `m` (1 through 12): the months skip the
/// structural hole at index 6.
pub open spec fn month_sq_idx(m: int) -> int {
    if m >= 7 {
        m
    } else {
        m - 1
    }
}

/// How a day offset reads from the text after "today": empty means no
/// offset, otherwise a mandatory sign followed by an integer; a minus sign
/// negates the number that follows it.
pub open spec fn offset_days_spec(s: Seq<u8>) -> Result<i64, Seq<char>> {
    let t = trim_front_spec(s);
    if t.len() == 0 {
        Ok(0)
    } else if t[0] == 43 {
        match i64_parse(trim_spec(t.drop_first())) {
            Some(v) => Ok(v),
            None => Err("date offset must be an integer"@),
        }
    } else if t[0] == 45 {
        match i64_parse(trim_spec(t.drop_first())) {
            Some(v) => if v == i64::MIN {
                Err("date offset must be an integer"@)
            } else {
                Ok((-v) as i64)
            },
            None => Err("date offset must be an integer"@),
        }
    } else {
        Err("could not parse date offset"@)
    }
}

/// How an explicit date reads from lowercased text: a month name — the
/// leading run of ASCII letters — then an optional single separator, then
/// a day number between 1 and 31 that the month really has.
pub open spec fn parse_date_spec(s: Seq<u8>) -> Result<Date, Seq<char>> {
    let a = alpha_len(s);
    match month_number_of(s.subrange(0, a)) {
        None => Err("invalid month"@),
        Some(m) => {
            let rest = s.subrange(a, s.len() as int);
            let ds = if rest.len() > 0 && (is_ws(rest[0]) || rest[0] == 44) {
                rest.drop_first()
            } else {
                rest
            };
            match usize_parse(ds) {
                None => Err("could not determine day"@),
                Some(day) => if day == 0 || day > 31 {
                    Err("day must be in range 1-31"@)
                } else {
                    let dt = Date {
                        month: Square { index: month_sq_idx(m as int) as u8 },
                        day: Square { index: (day + 13) as u8 },
                    };
                    if date_ok(dt.m(), dt.d()) {
                        Ok(dt)
                    } else {
                        Err("invalid date"@)
                    }
                },
            }
        },
    }
}

/// Whether lowercased input starts with the word "today".
pub open spec fn starts_today(s: Seq<u8>) -> bool {
    s.len() >= 5 && s[0] == 116 && s[1] == 111 && s[2] == 100 && s[3] == 97 && s[4] == 121
}

/// Whether raw input starts with a plus or minus sign.
pub open spec fn starts_signed(s: Seq<u8>) -> bool {
    s.len() > 0 && (s[0] == 43 || s[0] == 45)
}

/// What a date request built from today's date must satisfy: the outcome of
/// reading the offset is fixed by the text, and a successful result is a
/// date assembled from some zero-based month and day of the clock's
/// calendar.
pub open spec fn today_outcome_ok(s: Seq<u8>, r: Result<Date, String>) -> bool {
    match offset_days_spec(s) {
        Err(m) => r matches Err(e) && e@ == m,
        Ok(_) => match r {
            Ok(d) => d.month.valid() && d.month.index <= 12 && d.day.valid() && d.day.index
                >= 14,
            Err(e) => e@ == "date offset out of range"@,
        },
    }
}

fn trim_front_bytes(s: &[u8]) -> (r: usize)
    ensures
        r <= s@.len(),
        s@.subrange(r as int, s@.len() as int) == trim_front_spec(s@),
{
    let mut i: usize = 0;
    proof {
        assert(s@.skip(0) =~= s@);
    }
    while i < s.len() && (s[i] == 32 || (9 <= s[i] && s[i] <= 13))
        invariant
            i <= s@.len(),
            trim_front_spec(s@) == trim_front_spec(s@.skip(i as int)),
        decreases s@.len() - i,
    {
        proof {
            assert(s@.skip(i as int)[0] == s@[i as int]);
            assert(s@.skip(i as int).drop_first() =~= s@.skip(i as int + 1));
        }
        i = i + 1;
    }
    proof {
        if i < s@.len() {
            assert(trim_front_spec(s@.skip(i as int)) == s@.skip(i as int));
        } else {
            assert(s@.skip(i as int) =~= Seq::<u8>::empty());
        }
        assert(s@.subrange(i as int, s@.len() as int) =~= s@.skip(i as int));
    }
    i
}

fn trim_back_bytes(s: &[u8]) -> (r: usize)
    ensures
        r <= s@.len(),
        s@.subrange(0, r as int) == trim_back_spec(s@),
{
    let mut j: usize = s.len();
    proof {
        assert(s@.take(s@.len() as int) =~= s@);
    }
    while j > 0 && (s[j - 1] == 32 || (9 <= s[j - 1] && s[j - 1] <= 13))
        invariant
            j <= s@.len(),
            trim_back_spec(s@) == trim_back_spec(s@.take(j as int)),
        decreases j,
    {
        proof {
            assert(s@.take(j as int)[j - 1] == s@[j - 1]);
            assert(s@.take(j as int).drop_last() =~= s@.take(j as int - 1));
        }
        j = j - 1;
    }
    proof {
        if j > 0 {
            assert(trim_back_spec(s@.take(j as int)) == s@.take(j as int));
        } else {
            assert(s@.take(0) =~= Seq::<u8>::empty());
        }
        assert(s@.subrange(0, j as int) =~= s@.take(j as int));
    }
    j
}

/// Digit strings denote nonnegative numbers.
proof fn lemma_digits_val_nonneg(s: Seq<u8>)
    requires
        forall|i: int| 0 <= i < s.len() ==> is_digit(#[trigger] s[i]),
    ensures
        digits_val(s) >= 0,
    decreases s.len(),
{
    if s.len() > 0 {
        lemma_digits_val_nonneg(s.drop_last());
    }
}

/// Extending a digit string never shrinks its value.
proof fn lemma_digits_val_prefix(s: Seq<u8>, n: int)
    requires
        forall|i: int| 0 <= i < s.len() ==> is_digit(#[trigger] s[i]),
        0 <= n <= s.len(),
    ensures
        digits_val(s.take(n)) <= digits_val(s),
    decreases s.len() - n,
{
    if n < s.len() {
        lemma_digits_val_prefix(s, n + 1);
        let t = s.take(n + 1);
        assert(t.drop_last() =~= s.take(n));
        lemma_digits_val_nonneg(s.take(n));
        assert(digits_val(s.take(n)) <= digits_val(t));
    } else {
        assert(s.take(n) =~= s);
    }
}

/// The value of a run of digits, or `None` when the run is empty, has a
/// stray byte, or exceeds `u64`.
fn digits_value(s: &[u8]) -> (r: Option<u64>)
    ensures
        match r {
            Some(v) => digits_ok(s@) && v as int == digits_val(s@),
            None => !digits_ok(s@) || digits_val(s@) > u64::MAX,
        },
{
    if s.len() == 0 {
        return None;
    }
    let mut acc: u64 = 0;
    let mut i: usize = 0;
    proof {
        assert(s@.take(0) =~= Seq::<u8>::empty());
    }
    while i < s.len()
        invariant
            i <= s@.len(),
            s@.len() > 0,
            forall|k: int| 0 <= k < i ==> is_digit(#[trigger] s@[k]),
            acc as int == digits_val(s@.take(i as int)),
        decreases s@.len() - i,
    {
        let b = s[i];
        if b < 48 || b > 57 {
            return None;
        }
        let d: u64 = (b - 48) as u64;
        proof {
            assert(s@.take(i as int + 1).drop_last() =~= s@.take(i as int));
        }
        if acc > 1844674407370955161u64 || (acc == 1844674407370955161u64 && d > 5) {
            proof {
                assert(digits_val(s@.take(i as int + 1)) > u64::MAX);
                if digits_ok(s@) {
                    lemma_digits_val_prefix(s@, i as int + 1);
                    assert(s@.take(s@.len() as int) =~= s@);
                }
            }
            return None;
        }
        acc = acc * 10 + d;
        i = i + 1;
    }
    proof {
        assert(s@.take(s@.len() as int) =~= s@);
    }
    Some(acc)
}

/// The `i64` a signed decimal literal denotes, by the same rule as the
/// standard parser: optional sign, digits, range-checked.
fn parse_i64_bytes(s: &[u8]) -> (r: Option<i64>)
    ensures
        r == i64_parse(s@),
{
    let (neg, body_start): (bool, usize) = if s.len() > 0 && s[0] == 45 {
        (true, 1)
    } else if s.len() > 0 && s[0] == 43 {
        (false, 1)
    } else {
        (false, 0)
    };
    let body = vstd::slice::slice_subrange(s, body_start, s.len());
    proof {
        if body_start == 1 {
            assert(body@ =~= s@.drop_first());
        } else {
            assert(body@ =~= s@);
        }
    }
    match digits_value(body) {
        None => {
            proof {
                if !digits_ok(body@) {
                } else {
                    lemma_digits_val_nonneg(body@);
                }
            }
            None
        },
        Some(v) => {
            proof {
                lemma_digits_val_nonneg(body@);
            }
            if neg {
                if v <= 9223372036854775807u64 {
                    Some(-(v as i64))
                } else if v == 9223372036854775808u64 {
                    Some(i64::MIN)
                } else {
                    None
                }
            } else {
                if v <= 9223372036854775807u64 {
                    Some(v as i64)
                } else {
                    None
                }
            }
        },
    }
}

/// The `usize` an unsigned decimal literal denotes, by the same rule as the
/// standard parser: optional plus sign, digits, range-checked.
fn parse_usize_bytes(s: &[u8]) -> (r: Option<usize>)
    ensures
        match r {
            Some(v) => usize_parse(s@) == Some(v as int),
            None => usize_parse(s@) is None,
        },
{
    let body_start: usize = if s.len() > 0 && s[0] == 43 {
        1
    } else {
        0
    };
    let body = vstd::slice::slice_subrange(s, body_start, s.len());
    proof {
        if body_start == 1 {
            assert(body@ =~= s@.drop_first());
        } else {
            assert(body@ =~= s@);
        }
    }
    match digits_value(body) {
        None => {
            proof {
                if digits_ok(body@) {
                    lemma_digits_val_nonneg(body@);
                }
            }
            None
        },
        Some(v) => {
            if v <= usize::MAX as u64 {
                Some(v as usize)
            } else {
                None
            }
        },
    }
}

/// Reads a day offset and asks the clock for the date that many days from
/// today.
fn parse_today_bytes(offset: &[u8]) -> (r: Result<Date, String>)
    ensures
        today_outcome_ok(offset@, r),
{
    let start = trim_front_bytes(offset);
    let t = vstd::slice::slice_subrange(offset, start, offset.len());
    let days: i64 = if t.len() == 0 {
        0
    } else if t[0] == 43 || t[0] == 45 {
        let rest_start = trim_front_bytes(vstd::slice::slice_subrange(t, 1, t.len()));
        let inner = vstd::slice::slice_subrange(t, 1, t.len());
        let b = trim_back_bytes(vstd::slice::slice_subrange(inner, rest_start, inner.len()));
        let body = vstd::slice::slice_subrange(
            vstd::slice::slice_subrange(inner, rest_start, inner.len()),
            0,
            b,
        );
        proof {
            assert(inner@ =~= t@.drop_first());
            assert(body@ == trim_spec(t@.drop_first()));
        }
        match parse_i64_bytes(body) {
            None => {
                return Err(String::from_str("date offset must be an integer"));
            },
            Some(v) => {
                if t[0] == 45 {
                    if v == i64::MIN {
                        return Err(String::from_str("date offset must be an integer"));
                    }
                    -v
                } else {
                    v
                }
            },
        }
    } else {
        return Err(String::from_str("could not parse date offset"));
    };
    match today_with_offset(days) {
        None => Err(String::from_str("date offset out of range")),
        Some((m0, d0)) => {
            let month_idx: u8 = if m0 >= 6 {
                m0 + 1
            } else {
                m0
            };
            let day_idx: u8 = d0 + 14;
            let d = Date {
                month: Square { index: month_idx },
                day: Square { index: day_idx },
            };
            Ok(d)
        },
    }
}

/// Reads an explicit month-and-day from lowercased text.
fn parse_date_bytes(s: &[u8]) -> (r: Result<Date, String>)
    ensures
        match r {
            Ok(d) => parse_date_spec(s@) == Ok::<Date, Seq<char>>(d),
            Err(e) => parse_date_spec(s@) matches Err(m) && e@ == m,
        },
{
    let mut a: usize = 0;
    proof {
        assert(s@.skip(0) =~= s@);
    }
    while a < s.len() && 97 <= s[a] && s[a] <= 122
        invariant
            a <= s@.len(),
            alpha_len(s@) == a + alpha_len(s@.skip(a as int)),
            forall|k: int| 0 <= k < a ==> is_lower_alpha(#[trigger] s@[k]),
        decreases s@.len() - a,
    {
        proof {
            assert(s@.skip(a as int)[0] == s@[a as int]);
            assert(s@.skip(a as int).drop_first() =~= s@.skip(a as int + 1));
        }
        a = a + 1;
    }
    proof {
        if a < s@.len() {
            assert(alpha_len(s@.skip(a as int)) == 0);
        } else {
            assert(s@.skip(a as int) =~= Seq::<u8>::empty());
        }
        assert(alpha_len(s@) == a as int);
    }
    let month_bytes = vstd::slice::slice_subrange(s, 0, a);
    let m = match month_from_name(month_bytes) {
        None => {
            return Err(String::from_str("invalid month"));
        },
        Some(m) => m,
    };
    let rest = vstd::slice::slice_subrange(s, a, s.len());
    let ds_start: usize = if rest.len() > 0 && {
        let b = rest[0];
        b == 32 || (9 <= b && b <= 13) || b == 44
    } {
        1
    } else {
        0
    };
    let ds = vstd::slice::slice_subrange(rest, ds_start, rest.len());
    proof {
        let rs = s@.subrange(a as int, s@.len() as int);
        if ds_start == 1 {
            assert(ds@ =~= rs.drop_first());
        } else {
            assert(ds@ =~= rs);
        }
    }
    let day = match parse_usize_bytes(ds) {
        None => {
            return Err(String::from_str("could not determine day"));
        },
        Some(day) => day,
    };
    if day == 0 || day > 31 {
        return Err(String::from_str("day must be in range 1-31"));
    }
    let month_idx: u8 = if m >= 7 {
        m
    } else {
        m - 1
    };
    let dt = Date {
        month: Square { index: month_idx },
        day: Square { index: (day + 13) as u8 },
    };
    if dt.is_valid() {
        Ok(dt)
    } else {
        Err(String::from_str("invalid date"))
    }
}

/// Reads a date request: "today" with an optional day offset, a bare signed
/// day offset, or an explicit month-and-day. Input is lowercased first and
/// then read without surrounding ASCII whitespace.
pub fn parse_date_or_today(value: &str) -> (r: Result<Date, String>)
    ensures
        ({
            let nb = trim_spec(lower_of(value.spec_bytes()));
            &&& (starts_today(nb) ==> today_outcome_ok(
                nb.subrange(5, nb.len() as int),
                r,
            ))
            &&& (!starts_today(nb) && starts_signed(value.spec_bytes()) ==> today_outcome_ok(
                nb,
                r,
            ))
            &&& (!starts_today(nb) && !starts_signed(value.spec_bytes()) ==> match r {
                Ok(d) => parse_date_spec(nb) == Ok::<Date, Seq<char>>(d),
                Err(e) => parse_date_spec(nb) matches Err(m) && e@ == m,
            })
        }),
{
    let lowered = lower_str(value);
    let lb = lowered.as_str().as_bytes();
    let start = trim_front_bytes(lb);
    let mid = vstd::slice::slice_subrange(lb, start, lb.len());
    let end = trim_back_bytes(mid);
    let nb = vstd::slice::slice_subrange(mid, 0, end);
    proof {
        assert(nb@ == trim_spec(lower_of(value.spec_bytes())));
    }
    if nb.len() >= 5 && nb[0] == 116 && nb[1] == 111 && nb[2] == 100 && nb[3] == 97 && nb[4]
        == 121 {
        let offset = vstd::slice::slice_subrange(nb, 5, nb.len());
        parse_today_bytes(offset)
    } else {
        let vb = value.as_bytes();
        if vb.len() > 0 && (vb[0] == 43 || vb[0] == 45) {
            parse_today_bytes(nb)
        } else {
            parse_date_bytes(nb)
        }
    }
}

} // verus!
