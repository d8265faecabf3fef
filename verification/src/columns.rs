//! Typed encoding of parsed columns for a Parquet writer: each present cell
//! is read as a value of the field's type, and every cell gives a definition
//! level (1 where it is present, 0 where it is `None`).

use vstd::prelude::*;
use vstd::utf8::*;
use chrono::{DateTime, Datelike, NaiveDate, NaiveDateTime};

use crate::schema::{XsdType, parquet_annotation, parquet_line};

verus! {

// ---------------------------------------------------------------------------
// Errors
// ---------------------------------------------------------------------------

/// A cell whose text is not a value of its field's type.
#[derive(Debug)]
pub struct ColumnError {
    /// The type the cell should have had.
    pub kind: XsdType,
    /// The cell's text.
    pub value: String,
}

impl View for ColumnError {
    type V = (XsdType, Seq<char>);

    open spec fn view(&self) -> (XsdType, Seq<char>) {
        (self.kind, self.value@)
    }
}

// ---------------------------------------------------------------------------
// Present cells and definition levels
// ---------------------------------------------------------------------------

/// The texts of the present cells, in order.
pub open spec fn present(values: Seq<Option<String>>) -> Seq<Seq<char>>
    decreases values.len(),
{
    if values.len() == 0 {
        Seq::empty()
    } else {
        let rest = present(values.drop_last());
        match values.last() {
            Some(s) => rest.push(s@),
            None => rest,
        }
    }
}

/// The definition level of every cell: 1 where present, 0 where absent.
pub open spec fn definition_levels(values: Seq<Option<String>>) -> Seq<i16> {
    values.map_values(|o: Option<String>| if o is Some { 1i16 } else { 0i16 })
}

proof fn lemma_present_prefix(values: Seq<Option<String>>, i: int)
    requires
        0 <= i <= values.len(),
    ensures
        present(values.take(i)).len() <= present(values).len(),
        present(values).take(present(values.take(i)).len() as int) == present(values.take(i)),
    decreases values.len() - i,
{
    if i == values.len() {
        assert(values.take(i) =~= values);
        assert(present(values).take(present(values).len() as int) =~= present(values));
    } else {
        lemma_present_prefix(values, i + 1);
        let a = present(values.take(i));
        let b = present(values.take(i + 1));
        assert(values.take(i + 1).drop_last() =~= values.take(i));
        assert(b.take(a.len() as int) =~= a);
        assert(present(values).take(a.len() as int) =~= present(values).take(b.len() as int).take(
            a.len() as int,
        ));
    }
}

/// A parse function gives `out` on some string whose characters are `text`.
pub open spec fn parse_fn_gives<T, F: Fn(&str) -> Result<T, ColumnError>>(
    f: F,
    text: Seq<char>,
    out: Result<T, ColumnError>,
) -> bool {
    exists|x: &str| x@ == text && #[trigger] call_ensures(f, (x,), out)
}

/// The parse function succeeds on some string whose characters are `text`.
pub open spec fn parse_fn_accepts<T, F: Fn(&str) -> Result<T, ColumnError>>(
    f: F,
    text: Seq<char>,
) -> bool {
    exists|x: &str, v: T| x@ == text && #[trigger] call_ensures(f, (x,), Ok::<T, ColumnError>(v))
}

/// The parse function succeeds on every one of the texts.
pub open spec fn parses_all<T, F: Fn(&str) -> Result<T, ColumnError>>(
    f: F,
    texts: Seq<Seq<char>>,
) -> bool {
    forall|k: int| 0 <= k < texts.len() ==> parse_fn_accepts::<T, F>(f, #[trigger] texts[k])
}

/// What reading a column with `parse_fn` gives: on success the definition
/// level of every cell and, for each present cell in order, a value that
/// `parse_fn` gives for its text; on failure an error that `parse_fn` gives
/// for the text of some present cell, after it has accepted the texts of all
/// present cells before it.
pub open spec fn column_reading<T, F: Fn(&str) -> Result<T, ColumnError>>(
    parse_fn: F,
    values: Seq<Option<String>>,
    r: Result<(Seq<T>, Seq<i16>), ColumnError>,
) -> bool {
    match r {
        Ok((vals, defs)) => {
            &&& defs == definition_levels(values)
            &&& vals.len() == present(values).len()
            &&& forall|j: int|
                0 <= j < vals.len() ==> parse_fn_gives(
                    parse_fn,
                    present(values)[j],
                    Ok(#[trigger] vals[j]),
                )
        },
        Err(e) => exists|j: int|
            0 <= j < present(values).len() && parse_fn_gives(
                parse_fn,
                #[trigger] present(values)[j],
                Err(e),
            ) && parses_all::<T, F>(parse_fn, present(values).take(j)),
    }
}

/// The plain value of a column reader's result.
pub open spec fn reading_view<T>(r: Result<(Vec<T>, Vec<i16>), ColumnError>) -> Result<
    (Seq<T>, Seq<i16>),
    ColumnError,
> {
    match r {
        Ok((vals, defs)) => Ok((vals@, defs@)),
        Err(e) => Err(e),
    }
}

/// The shared body of the column readers, for any value type.
fn parse_column<T, F: Fn(&str) -> Result<T, ColumnError>>(
    values: &[Option<String>],
    parse_fn: F,
) -> (r: Result<(Vec<T>, Vec<i16>), ColumnError>)
    requires
        forall|x: &str| present(values@).contains(x@) ==> call_requires(parse_fn, (x,)),
    ensures
        column_reading(parse_fn, values@, reading_view(r)),
{
    let mut vals: Vec<T> = Vec::new();
    let mut def_levels: Vec<i16> = Vec::new();
    let n = values.len();
    for i in 0..n
        invariant
            n == values@.len(),
            forall|x: &str| present(values@).contains(x@) ==> call_requires(parse_fn, (x,)),
            def_levels@ == definition_levels(values@.take(i as int)),
            vals@.len() == present(values@.take(i as int)).len(),
            forall|j: int|
                0 <= j < vals@.len() ==> parse_fn_gives(
                    parse_fn,
                    present(values@.take(i as int))[j],
                    Ok(#[trigger] vals@[j]),
                ),
    {
        proof {
            assert(values@.take(i + 1).drop_last() =~= values@.take(i as int));
            lemma_present_prefix(values@, i + 1);
        }
        match &values[i] {
            Some(s) => {
                let x = s.as_str();
                proof {
                    let p = present(values@.take(i + 1));
                    assert(p.last() == x@);
                    assert(present(values@)[p.len() - 1] == p[p.len() - 1]);
                }
                match parse_fn(x) {
                    Ok(v) => {
                        vals.push(v);
                    },
                    Err(e) => {
                        proof {
                            let p = present(values@.take(i as int));
                            let j = p.len() as int;
                            lemma_present_prefix(values@, i as int);
                            assert(parse_fn_gives(parse_fn, present(values@)[j], Err(e)));
                            assert forall|k: int| 0 <= k < j implies parse_fn_accepts::<T, F>(
                                parse_fn,
                                #[trigger] p[k],
                            ) by {
                                assert(parse_fn_gives(parse_fn, p[k], Ok(vals@[k])));
                            }
                            assert(parses_all::<T, F>(parse_fn, p));
                            assert(present(values@).take(j) == p);
                        }
                        return Err(e);
                    },
                }
                def_levels.push(1);
            },
            None => {
                def_levels.push(0);
            },
        }
        assert(def_levels@ =~= definition_levels(values@.take(i + 1)));
    }
    assert(values@.take(n as int) =~= values@);
    Ok((vals, def_levels))
}

/// Reads the present cells of a column with `parse_fn` and returns the
/// values with the definition levels of all cells. Stops at the first
/// present cell on which `parse_fn` fails and returns its error.
pub fn parse_int32_column<F: Fn(&str) -> Result<i32, ColumnError>>(
    values: &[Option<String>],
    parse_fn: F,
) -> (r: Result<(Vec<i32>, Vec<i16>), ColumnError>)
    requires
        forall|x: &str| present(values@).contains(x@) ==> call_requires(parse_fn, (x,)),
    ensures
        column_reading(parse_fn, values@, reading_view(r)),
{
    parse_column(values, parse_fn)
}

/// Reads the present cells of a column with `parse_fn` and returns the
/// values with the definition levels of all cells. Stops at the first
/// present cell on which `parse_fn` fails and returns its error.
pub fn parse_int64_column<F: Fn(&str) -> Result<i64, ColumnError>>(
    values: &[Option<String>],
    parse_fn: F,
) -> (r: Result<(Vec<i64>, Vec<i16>), ColumnError>)
    requires
        forall|x: &str| present(values@).contains(x@) ==> call_requires(parse_fn, (x,)),
    ensures
        column_reading(parse_fn, values@, reading_view(r)),
{
    parse_column(values, parse_fn)
}

// ---------------------------------------------------------------------------
// Decimal integers, as `str::parse` reads them
// ---------------------------------------------------------------------------

pub open spec fn is_ascii_digit(c: char) -> bool {
    '0' <= c && c <= '9'
}

/// One or more ASCII digits.
pub open spec fn all_digits(d: Seq<char>) -> bool {
    d.len() > 0 && forall|i: int| 0 <= i < d.len() ==> is_ascii_digit(#[trigger] d[i])
}

/// The value of a string of decimal digits.
pub open spec fn digits_value(d: Seq<char>) -> int
    decreases d.len(),
{
    if d.len() == 0 {
        0
    } else {
        digits_value(d.drop_last()) * 10 + (d.last() as int - '0' as int)
    }
}

/// The integer that `str::parse` reads for a signed type, before its range
/// is checked: an optional `+` or `-` sign followed by one or more ASCII
/// digits, and nothing else.
pub open spec fn signed_decimal(s: Seq<char>) -> Option<int> {
    if s.len() > 0 && s[0] == '-' {
        if all_digits(s.drop_first()) {
            Some(-digits_value(s.drop_first()))
        } else {
            None
        }
    } else if s.len() > 0 && s[0] == '+' {
        if all_digits(s.drop_first()) {
            Some(digits_value(s.drop_first()))
        } else {
            None
        }
    } else if all_digits(s) {
        Some(digits_value(s))
    } else {
        None
    }
}

/// The integer that `str::parse` reads for an unsigned type, before its
/// range is checked: an optional `+` sign followed by one or more ASCII
/// digits, and nothing else.
pub open spec fn unsigned_decimal(s: Seq<char>) -> Option<int> {
    if s.len() > 0 && s[0] == '+' {
        if all_digits(s.drop_first()) {
            Some(digits_value(s.drop_first()))
        } else {
            None
        }
    } else if all_digits(s) {
        Some(digits_value(s))
    } else {
        None
    }
}

/// A decimal value, where it lies in `lo..=hi`.
pub open spec fn in_range(o: Option<int>, lo: int, hi: int) -> Option<int> {
    match o {
        Some(x) => if lo <= x && x <= hi {
            Some(x)
        } else {
            None
        },
        None => None,
    }
}

/// The integer read for a signed or an unsigned type, before its range is
/// checked.
pub open spec fn decimal(s: Seq<char>, signed: bool) -> Option<int> {
    if signed {
        signed_decimal(s)
    } else {
        unsigned_decimal(s)
    }
}

/// A string of digits has at least the value of each of its prefixes.
proof fn lemma_digits_value_prefix(d: Seq<char>, k: int)
    requires
        all_digits(d),
        0 <= k <= d.len(),
    ensures
        0 <= digits_value(d.take(k)) <= digits_value(d),
    decreases d.len(),
{
    if k == d.len() {
        assert(d.take(k) =~= d);
        lemma_digits_value_nonneg(d);
    } else {
        let p = d.drop_last();
        if p.len() > 0 {
            assert forall|i: int| 0 <= i < p.len() implies is_ascii_digit(#[trigger] p[i]) by {
                assert(p[i] == d[i]);
            }
            lemma_digits_value_prefix(p, k);
            assert(p.take(k) =~= d.take(k));
        } else {
            assert(d.take(k) =~= Seq::<char>::empty());
        }
        lemma_digits_value_nonneg(p);
        assert(is_ascii_digit(d[d.len() - 1]));
    }
}

proof fn lemma_digits_value_nonneg(d: Seq<char>)
    requires
        forall|i: int| 0 <= i < d.len() ==> is_ascii_digit(#[trigger] d[i]),
    ensures
        digits_value(d) >= 0,
    decreases d.len(),
{
    if d.len() > 0 {
        let p = d.drop_last();
        assert forall|i: int| 0 <= i < p.len() implies is_ascii_digit(#[trigger] p[i]) by {
            assert(p[i] == d[i]);
        }
        lemma_digits_value_nonneg(p);
        assert(is_ascii_digit(d[d.len() - 1]));
    }
}

/// A string with a character that is not an ASCII digit, other than a sign
/// in the first position, is no decimal.
proof fn lemma_not_decimal_at(s: Seq<char>, signed: bool, k: int)
    requires
        0 <= k < s.len(),
        !is_ascii_digit(s[k]),
        k > 0 || (s[0] != '+' && !(signed && s[0] == '-')),
    ensures
        decimal(s, signed) is None,
{
    if s.len() > 0 && (s[0] == '+' || (signed && s[0] == '-')) {
        assert(s.drop_first()[k - 1] == s[k]);
    }
}

/// Reads `s` as `str::parse` reads an integer type whose values are
/// `lo..=hi`: an optional sign (`-` only where `signed`) followed by one or
/// more ASCII digits and nothing else, whose value lies in the range.
fn read_decimal(s: &str, signed: bool, lo: i128, hi: i128) -> (r: Option<i128>)
    requires
        -0x1_0000_0000_0000_0000 <= lo <= 0 < hi <= 0x1_0000_0000_0000_0000,
        !signed ==> lo == 0,
    ensures
        match r {
            Some(v) => in_range(decimal(s@, signed), lo as int, hi as int) == Some(v as int),
            None => in_range(decimal(s@, signed), lo as int, hi as int) is None,
        },
{
    if !s.is_ascii() {
        proof {
            let k = choose|k: int| 0 <= k < s@.len() && !('\0' <= #[trigger] s@[k] <= '\u{7f}');
            lemma_not_decimal_at(s@, signed, k);
        }
        return None;
    }
    let bytes = s.as_bytes();
    proof {
        vstd::string::is_ascii_spec_bytes(s);
        assert(bytes@ =~= Seq::new(s@.len(), |i| s@.index(i) as u8));
    }
    let n = bytes.len();
    let mut negative = false;
    let mut start: usize = 0;
    if n > 0 && bytes[0] == 45u8 && signed {
        negative = true;
        start = 1;
    } else if n > 0 && bytes[0] == 43u8 {
        start = 1;
    }
    if start == n {
        proof {
            if n > 0 {
                assert(s@.drop_first() =~= Seq::<char>::empty());
            }
        }
        return None;
    }
    proof {
        if n > 0 {
            assert(bytes@[0] == s@[0] as u8);
        }
    }
    let limit: i128 = if negative {
        -lo
    } else {
        hi
    };
    let ghost t = s@.subrange(start as int, n as int);
    let mut value: i128 = 0;
    let mut i: usize = start;
    while i < n
        invariant
            bytes@ == Seq::new(s@.len(), |k| s@.index(k) as u8),
            n == s@.len(),
            start < n,
            start <= 1,
            start <= i <= n,
            t == s@.subrange(start as int, n as int),
            -0x1_0000_0000_0000_0000 <= lo <= 0 < hi <= 0x1_0000_0000_0000_0000,
            !signed ==> lo == 0,
            start == 0 ==> s@[0] != '+' && !(signed && s@[0] == '-'),
            start == 1 ==> s@[0] == '+' || (signed && s@[0] == '-'),
            negative <==> (start == 1 && signed && s@[0] == '-'),
            negative ==> limit == -lo,
            !negative ==> limit == hi,
            forall|k: int| 0 <= k < s@.len() ==> '\0' <= #[trigger] s@[k] <= '\u{7f}',
            forall|k: int| start <= k < i ==> is_ascii_digit(#[trigger] s@[k]),
            value == digits_value(s@.subrange(start as int, i as int)),
            0 <= value <= limit,
        decreases n - i,
    {
        let b = bytes[i];
        assert(b == s@[i as int] as u8);
        if b < 48u8 || b > 57u8 {
            proof {
                assert(!is_ascii_digit(s@[i as int]));
                lemma_not_decimal_at(s@, signed, i as int);
            }
            return None;
        }
        let d: i128 = (b - 48u8) as i128;
        let ghost prefix = s@.subrange(start as int, i + 1);
        proof {
            assert(is_ascii_digit(s@[i as int]));
            assert(prefix.drop_last() =~= s@.subrange(start as int, i as int));
            assert(prefix.last() == s@[i as int]);
            assert(d == s@[i as int] as int - '0' as int);
            assert(digits_value(prefix) == value * 10 + d);
        }
        if value > limit / 10 || (value == limit / 10 && d > limit % 10) {
            proof {
                assert(value * 10 + d > limit) by (nonlinear_arith)
                    requires
                        value > limit / 10 || (value == limit / 10 && d > limit % 10),
                        limit >= 0,
                        0 <= d <= 9,
                ;
                if all_digits(t) {
                    assert(t.take(i + 1 - start) =~= prefix);
                    lemma_digits_value_prefix(t, i + 1 - start);
                }
                if start == 1 {
                    assert(s@.drop_first() =~= t);
                } else {
                    assert(s@ =~= t);
                }
            }
            return None;
        }
        proof {
            assert(value * 10 + d <= limit) by (nonlinear_arith)
                requires
                    !(value > limit / 10 || (value == limit / 10 && d > limit % 10)),
                    limit >= 0,
                    0 <= d <= 9,
                    value >= 0,
            ;
        }
        value = value * 10 + d;
        i = i + 1;
    }
    proof {
        assert(s@.subrange(start as int, i as int) == t);
        assert(all_digits(t));
        if start == 1 {
            assert(s@.drop_first() =~= t);
        } else {
            assert(s@ =~= t);
        }
    }
    if negative {
        Some(-value)
    } else {
        Some(value)
    }
}

/// Reads a decimal `i8` as `<i8 as FromStr>::from_str` does.
fn parse_i8(s: &str) -> (r: Option<i8>)
    ensures
        match r {
            Some(v) => in_range(signed_decimal(s@), i8::MIN as int, i8::MAX as int) == Some(v as int),
            None => in_range(signed_decimal(s@), i8::MIN as int, i8::MAX as int) is None,
        },
{
    match read_decimal(s, true, -128, 127) {
        Some(v) => Some(v as i8),
        None => None,
    }
}

/// Reads a decimal `i16` as `<i16 as FromStr>::from_str` does.
fn parse_i16(s: &str) -> (r: Option<i16>)
    ensures
        match r {
            Some(v) => in_range(signed_decimal(s@), i16::MIN as int, i16::MAX as int) == Some(
                v as int,
            ),
            None => in_range(signed_decimal(s@), i16::MIN as int, i16::MAX as int) is None,
        },
{
    match read_decimal(s, true, -32768, 32767) {
        Some(v) => Some(v as i16),
        None => None,
    }
}

/// Reads a decimal `i32` as `<i32 as FromStr>::from_str` does.
fn parse_i32(s: &str) -> (r: Option<i32>)
    ensures
        match r {
            Some(v) => in_range(signed_decimal(s@), i32::MIN as int, i32::MAX as int) == Some(
                v as int,
            ),
            None => in_range(signed_decimal(s@), i32::MIN as int, i32::MAX as int) is None,
        },
{
    match read_decimal(s, true, -2147483648, 2147483647) {
        Some(v) => Some(v as i32),
        None => None,
    }
}

/// Reads a decimal `u64` as `<u64 as FromStr>::from_str` does: no `-`
/// sign, not even before a zero.
fn parse_u64(s: &str) -> (r: Option<u64>)
    ensures
        match r {
            Some(v) => in_range(unsigned_decimal(s@), 0, u64::MAX as int) == Some(v as int),
            None => in_range(unsigned_decimal(s@), 0, u64::MAX as int) is None,
        },
{
    match read_decimal(s, false, 0, 18446744073709551615) {
        Some(v) => Some(v as u64),
        None => None,
    }
}

// ---------------------------------------------------------------------------
// Dates and timestamps, as chrono reads them
// ---------------------------------------------------------------------------

/// What `chrono::NaiveDate::parse_from_str(s, fmt)` gives, as the day
/// number counted from 1 January of year 1 (`num_days_from_ce`); `None`
/// where chrono refuses the text.
pub uninterp spec fn chrono_date_days_from_ce(s: Seq<char>, fmt: Seq<char>) -> Option<i32>;

/// What `chrono::NaiveDateTime::parse_from_str(s, fmt)` gives, as
/// microseconds since the Unix epoch with the time taken as UTC; `None`
/// where chrono refuses the text.
pub uninterp spec fn chrono_naive_datetime_micros(s: Seq<char>, fmt: Seq<char>) -> Option<i64>;

/// What `chrono::DateTime::parse_from_rfc3339(s)` gives, as microseconds
/// since the Unix epoch; `None` where chrono refuses the text.
pub uninterp spec fn chrono_rfc3339_micros(s: Seq<char>) -> Option<i64>;

/// Calls `chrono::NaiveDate::parse_from_str` and reads the date's
/// `num_days_from_ce`. Claims that the result is `chrono_date_days_from_ce`
/// of the arguments.
#[verifier::external_body]
fn date_days_from_ce(s: &str, fmt: &str) -> (r: Option<i32>)
    ensures
        r == chrono_date_days_from_ce(s@, fmt@),
{
    match NaiveDate::parse_from_str(s, fmt) {
        Ok(date) => Some(date.num_days_from_ce()),
        Err(_) => None,
    }
}

/// Calls `chrono::NaiveDateTime::parse_from_str` and reads the time as
/// UTC microseconds (`and_utc().timestamp_micros()`). Claims that the
/// result is `chrono_naive_datetime_micros` of the arguments.
#[verifier::external_body]
fn naive_datetime_micros(s: &str, fmt: &str) -> (r: Option<i64>)
    ensures
        r == chrono_naive_datetime_micros(s@, fmt@),
{
    match NaiveDateTime::parse_from_str(s, fmt) {
        Ok(dt) => Some(dt.and_utc().timestamp_micros()),
        Err(_) => None,
    }
}

/// Calls `chrono::DateTime::parse_from_rfc3339` and reads the time as
/// microseconds (`timestamp_micros()`). Claims that the result is
/// `chrono_rfc3339_micros` of the argument.
#[verifier::external_body]
fn rfc3339_micros(s: &str) -> (r: Option<i64>)
    ensures
        r == chrono_rfc3339_micros(s@),
{
    match DateTime::parse_from_rfc3339(s) {
        Ok(dt) => Some(dt.timestamp_micros()),
        Err(_) => None,
    }
}

/// The day number (counted from 1 January of year 1) of 1 January 1970.
pub const UNIX_EPOCH_DAYS_FROM_CE: i64 = 719163;

/// The number of bytes of a date cell that are read as the date: the
/// first ten, or all of a shorter cell.
pub open spec fn date_prefix_len(s: Seq<char>) -> int {
    let n = encode_utf8(s).len() as int;
    if n < 10 {
        n
    } else {
        10
    }
}

/// The date part of a cell is whole characters: its bytes end on a
/// character boundary (of a cell that, like every string, has no more
/// bytes than `usize` counts).
pub open spec fn date_prefix_ok(s: Seq<char>) -> bool {
    &&& encode_utf8(s).len() <= usize::MAX
    &&& is_char_boundary(encode_utf8(s), date_prefix_len(s))
}

/// The characters of the date part of a cell.
pub open spec fn date_prefix(s: Seq<char>) -> Seq<char> {
    decode_utf8(encode_utf8(s).subrange(0, date_prefix_len(s)))
}

/// A date cell: its first ten bytes read as `%Y-%m-%d`, as days since the
/// Unix epoch.
pub open spec fn date_cell(s: Seq<char>) -> Option<i32> {
    match chrono_date_days_from_ce(date_prefix(s), "%Y-%m-%d"@) {
        Some(d) => Some((d - UNIX_EPOCH_DAYS_FROM_CE) as i32),
        None => None,
    }
}

/// A timestamp cell, as microseconds since the Unix epoch: read with
/// fractional seconds, else without, else as RFC 3339.
pub open spec fn datetime_cell(s: Seq<char>) -> Option<i64> {
    match chrono_naive_datetime_micros(s, "%Y-%m-%dT%H:%M:%S%.f"@) {
        Some(v) => Some(v),
        None => match chrono_naive_datetime_micros(s, "%Y-%m-%dT%H:%M:%S"@) {
            Some(v) => Some(v),
            None => chrono_rfc3339_micros(s),
        },
    }
}

/// A parse result agrees with a cell reading: the value where the cell
/// reads as one, else the error that names the type and the text.
pub open spec fn cell_result<T>(
    r: Result<T, ColumnError>,
    cell: Option<T>,
    kind: XsdType,
    text: Seq<char>,
) -> bool {
    match r {
        Ok(v) => cell == Some(v),
        Err(e) => cell is None && e@ == (kind, text),
    }
}

/// Reads a timestamp as microseconds since the Unix epoch: first as
/// `%Y-%m-%dT%H:%M:%S%.f` (most common in MaStR data), then without
/// fractional seconds, then as RFC 3339 with a time zone offset.
pub fn parse_datetime_micros(s: &str) -> (r: Result<i64, ColumnError>)
    ensures
        cell_result(r, datetime_cell(s@), XsdType::DateTime, s@),
{
    match naive_datetime_micros(s, "%Y-%m-%dT%H:%M:%S%.f") {
        Some(v) => {
            return Ok(v);
        },
        None => {},
    }
    match naive_datetime_micros(s, "%Y-%m-%dT%H:%M:%S") {
        Some(v) => {
            return Ok(v);
        },
        None => {},
    }
    match rfc3339_micros(s) {
        Some(v) => Ok(v),
        None => Err(ColumnError { kind: XsdType::DateTime, value: String::from_str(s) }),
    }
}

// ---------------------------------------------------------------------------
// Cells of each type
// ---------------------------------------------------------------------------

/// A cell of a column stored as `INT32`: bytes, shorts and ints as their
/// value, dates as days since the Unix epoch.
pub open spec fn int32_cell(kind: XsdType, s: Seq<char>) -> Option<i32> {
    match kind {
        XsdType::Byte => match in_range(signed_decimal(s), i8::MIN as int, i8::MAX as int) {
            Some(x) => Some(x as i32),
            None => None,
        },
        XsdType::Short => match in_range(signed_decimal(s), i16::MIN as int, i16::MAX as int) {
            Some(x) => Some(x as i32),
            None => None,
        },
        XsdType::Int => match in_range(signed_decimal(s), i32::MIN as int, i32::MAX as int) {
            Some(x) => Some(x as i32),
            None => None,
        },
        XsdType::Date => date_cell(s),
        _ => None,
    }
}

/// A cell of a column stored as `INT64`: timestamps as microseconds, and
/// non-negative integers read as `u64` and stored with the same bits as
/// `i64`.
pub open spec fn int64_cell(kind: XsdType, s: Seq<char>) -> Option<i64> {
    match kind {
        XsdType::DateTime => datetime_cell(s),
        XsdType::NonNegativeInteger => match in_range(unsigned_decimal(s), 0, u64::MAX as int) {
            Some(x) => Some((x as u64) as i64),
            None => None,
        },
        _ => None,
    }
}

/// A boolean cell: `true` or `1`, `false` or `0`.
pub open spec fn bool_cell(s: Seq<char>) -> Option<bool> {
    if s == "true"@ || s == "1"@ {
        Some(true)
    } else if s == "false"@ || s == "0"@ {
        Some(false)
    } else {
        None
    }
}

/// A date cell read by days since the Unix epoch.
fn read_date(s: &str) -> (r: Option<i32>)
    requires
        date_prefix_ok(s@),
    ensures
        r == date_cell(s@),
{
    let n = s.len();
    let k = if n < 10 {
        n
    } else {
        10
    };
    let (prefix, _) = s.split_at(k);
    proof {
        encode_utf8_decode_utf8(prefix@);
    }
    assert(prefix@ == date_prefix(s@));
    match date_days_from_ce(prefix, "%Y-%m-%d") {
        Some(days) => Some(#[verifier::truncate] ((days as i64 - UNIX_EPOCH_DAYS_FROM_CE) as i32)),
        None => None,
    }
}

/// Reads a cell of a column stored as `INT32`.
fn read_int32(kind: XsdType, s: &str) -> (r: Result<i32, ColumnError>)
    requires
        kind == XsdType::Date ==> date_prefix_ok(s@),
    ensures
        cell_result(r, int32_cell(kind, s@), kind, s@),
{
    let value = match kind {
        XsdType::Byte => match parse_i8(s) {
            Some(v) => Some(v as i32),
            None => None,
        },
        XsdType::Short => match parse_i16(s) {
            Some(v) => Some(v as i32),
            None => None,
        },
        XsdType::Int => parse_i32(s),
        XsdType::Date => read_date(s),
        _ => None,
    };
    match value {
        Some(v) => Ok(v),
        None => Err(ColumnError { kind, value: String::from_str(s) }),
    }
}

/// Reads a cell of a column stored as `INT64`.
fn read_int64(kind: XsdType, s: &str) -> (r: Result<i64, ColumnError>)
    ensures
        cell_result(r, int64_cell(kind, s@), kind, s@),
{
    match kind {
        XsdType::DateTime => parse_datetime_micros(s),
        XsdType::NonNegativeInteger => match parse_u64(s) {
            Some(v) => Ok(v as i64),
            None => Err(ColumnError { kind, value: String::from_str(s) }),
        },
        _ => Err(ColumnError { kind, value: String::from_str(s) }),
    }
}

/// Reads a boolean cell.
fn read_bool(s: &str) -> (r: Result<bool, ColumnError>)
    ensures
        cell_result(r, bool_cell(s@), XsdType::Boolean, s@),
{
    let text = String::from_str(s);
    if text == String::from_str("true") || text == String::from_str("1") {
        Ok(true)
    } else if text == String::from_str("false") || text == String::from_str("0") {
        Ok(false)
    } else {
        Err(ColumnError { kind: XsdType::Boolean, value: text })
    }
}

// ---------------------------------------------------------------------------
// Whole columns
// ---------------------------------------------------------------------------

/// The index of the first text that does not read as a cell.
pub open spec fn first_refused<T>(texts: Seq<Seq<char>>, cellf: spec_fn(Seq<char>) -> Option<T>) -> Option<int>
    decreases texts.len(),
{
    if texts.len() == 0 {
        None
    } else {
        match first_refused(texts.drop_last(), cellf) {
            Some(j) => Some(j),
            None => if cellf(texts.last()) is None {
                Some(texts.len() - 1)
            } else {
                None
            },
        }
    }
}

/// Reading all texts as cells: every value, or the error of the first text
/// that does not read.
pub open spec fn read_cells<T>(
    texts: Seq<Seq<char>>,
    kind: XsdType,
    cellf: spec_fn(Seq<char>) -> Option<T>,
) -> Result<Seq<T>, (XsdType, Seq<char>)> {
    match first_refused(texts, cellf) {
        Some(j) => Err((kind, texts[j])),
        None => Ok(texts.map_values(|t: Seq<char>| cellf(t)->0)),
    }
}

/// A column encoded for the Parquet writer: the values of the present
/// cells and the definition levels of all cells. Floating-point columns
/// keep the texts of their present cells, for the writer to read.
#[derive(Debug)]
#[allow(inconsistent_fields)]
pub enum ColumnData {
    Int32 { values: Vec<i32>, def_levels: Vec<i16> },
    Int64 { values: Vec<i64>, def_levels: Vec<i16> },
    Boolean { values: Vec<bool>, def_levels: Vec<i16> },
    Text { values: Vec<String>, def_levels: Vec<i16> },
    Float { values: Vec<String>, def_levels: Vec<i16> },
    Double { values: Vec<String>, def_levels: Vec<i16> },
}

/// The plain value of an encoded column.
pub enum ColumnDataView {
    Int32(Seq<i32>, Seq<i16>),
    Int64(Seq<i64>, Seq<i16>),
    Boolean(Seq<bool>, Seq<i16>),
    Text(Seq<Seq<char>>, Seq<i16>),
    Float(Seq<Seq<char>>, Seq<i16>),
    Double(Seq<Seq<char>>, Seq<i16>),
}

pub open spec fn strings_view(v: Seq<String>) -> Seq<Seq<char>> {
    v.map_values(|s: String| s@)
}

impl View for ColumnData {
    type V = ColumnDataView;

    open spec fn view(&self) -> ColumnDataView {
        match self {
            ColumnData::Int32 { values, def_levels } => ColumnDataView::Int32(values@, def_levels@),
            ColumnData::Int64 { values, def_levels } => ColumnDataView::Int64(values@, def_levels@),
            ColumnData::Boolean { values, def_levels } => ColumnDataView::Boolean(
                values@,
                def_levels@,
            ),
            ColumnData::Text { values, def_levels } => ColumnDataView::Text(
                strings_view(values@),
                def_levels@,
            ),
            ColumnData::Float { values, def_levels } => ColumnDataView::Float(
                strings_view(values@),
                def_levels@,
            ),
            ColumnData::Double { values, def_levels } => ColumnDataView::Double(
                strings_view(values@),
                def_levels@,
            ),
        }
    }
}

/// The encoding of a column of the given type.
pub open spec fn encode_outcome(values: Seq<Option<String>>, kind: XsdType) -> Result<
    ColumnDataView,
    (XsdType, Seq<char>),
> {
    let texts = present(values);
    let defs = definition_levels(values);
    match kind {
        XsdType::Byte | XsdType::Short | XsdType::Int | XsdType::Date => match read_cells(
            texts,
            kind,
            |t: Seq<char>| int32_cell(kind, t),
        ) {
            Ok(v) => Ok(ColumnDataView::Int32(v, defs)),
            Err(e) => Err(e),
        },
        XsdType::DateTime | XsdType::NonNegativeInteger => match read_cells(
            texts,
            kind,
            |t: Seq<char>| int64_cell(kind, t),
        ) {
            Ok(v) => Ok(ColumnDataView::Int64(v, defs)),
            Err(e) => Err(e),
        },
        XsdType::Boolean => match read_cells(texts, kind, |t: Seq<char>| bool_cell(t)) {
            Ok(v) => Ok(ColumnDataView::Boolean(v, defs)),
            Err(e) => Err(e),
        },
        XsdType::String => Ok(ColumnDataView::Text(texts, defs)),
        XsdType::Float => Ok(ColumnDataView::Float(texts, defs)),
        XsdType::Double => Ok(ColumnDataView::Double(texts, defs)),
    }
}

/// Every date cell of a column has a date part of whole characters.
pub open spec fn date_cells_ok(values: Seq<Option<String>>) -> bool {
    forall|k: int| 0 <= k < present(values).len() ==> date_prefix_ok(#[trigger] present(values)[k])
}

proof fn lemma_first_refused_none<T>(texts: Seq<Seq<char>>, cellf: spec_fn(Seq<char>) -> Option<T>)
    requires
        forall|k: int| 0 <= k < texts.len() ==> #[trigger] cellf(texts[k]) is Some,
    ensures
        first_refused(texts, cellf) is None,
    decreases texts.len(),
{
    if texts.len() > 0 {
        assert forall|k: int| 0 <= k < texts.drop_last().len() implies #[trigger] cellf(
            texts.drop_last()[k],
        ) is Some by {
            assert(texts.drop_last()[k] == texts[k]);
        }
        lemma_first_refused_none(texts.drop_last(), cellf);
        assert(cellf(texts[texts.len() - 1]) is Some);
    }
}

proof fn lemma_first_refused_at<T>(
    texts: Seq<Seq<char>>,
    cellf: spec_fn(Seq<char>) -> Option<T>,
    j: int,
)
    requires
        0 <= j < texts.len(),
        cellf(texts[j]) is None,
        forall|k: int| 0 <= k < j ==> #[trigger] cellf(texts[k]) is Some,
    ensures
        first_refused(texts, cellf) == Some(j),
    decreases texts.len(),
{
    let prefix = texts.drop_last();
    if j < texts.len() - 1 {
        assert(prefix[j] == texts[j]);
        assert forall|k: int| 0 <= k < j implies #[trigger] cellf(prefix[k]) is Some by {
            assert(prefix[k] == texts[k]);
        }
        lemma_first_refused_at(prefix, cellf, j);
    } else {
        assert forall|k: int| 0 <= k < prefix.len() implies #[trigger] cellf(prefix[k]) is Some by {
            assert(prefix[k] == texts[k]);
        }
        lemma_first_refused_none(prefix, cellf);
    }
}

/// What a column reader's result says of the reading of its texts, where
/// the parse function agrees with `cellf`.
proof fn lemma_read_cells<T, F: Fn(&str) -> Result<T, ColumnError>>(
    f: F,
    values: Seq<Option<String>>,
    kind: XsdType,
    cellf: spec_fn(Seq<char>) -> Option<T>,
    r: Result<(Vec<T>, Vec<i16>), ColumnError>,
)
    requires
        forall|x: &str, out: Result<T, ColumnError>|
            #[trigger] call_ensures(f, (x,), out) ==> cell_result(out, cellf(x@), kind, x@),
        column_reading(f, values, reading_view(r)),
    ensures
        match r {
            Ok((vals, _)) => read_cells(present(values), kind, cellf) == Ok::<
                Seq<T>,
                (XsdType, Seq<char>),
            >(vals@),
            Err(e) => read_cells(present(values), kind, cellf) == Err::<Seq<T>, (XsdType, Seq<char>)>(
                e@,
            ),
        },
{
    let texts = present(values);
    match r {
        Ok((vals, _)) => {
            assert forall|k: int| 0 <= k < texts.len() implies #[trigger] cellf(texts[k]) == Some(
                vals@[k],
            ) by {
                assert(parse_fn_gives(f, texts[k], Ok(vals@[k])));
            }
            lemma_first_refused_none(texts, cellf);
            assert(texts.map_values(|t: Seq<char>| cellf(t)->0) =~= vals@);
        },
        Err(e) => {
            let j = choose|j: int|
                0 <= j < texts.len() && parse_fn_gives(f, #[trigger] texts[j], Err(e))
                    && parses_all::<T, F>(f, texts.take(j));
            assert forall|k: int| 0 <= k < j implies #[trigger] cellf(texts[k]) is Some by {
                assert(texts.take(j)[k] == texts[k]);
                assert(parse_fn_accepts::<T, F>(f, texts.take(j)[k]));
            }
            lemma_first_refused_at(texts, cellf, j);
        },
    }
}

/// The number of definition levels that mark a present cell.
pub open spec fn present_count(levels: Seq<i16>) -> nat
    decreases levels.len(),
{
    if levels.len() == 0 {
        0
    } else {
        present_count(levels.drop_last()) + if levels.last() == 1 {
            1nat
        } else {
            0nat
        }
    }
}

/// An encoded column of `n` cells: one definition level per cell and one
/// value per present cell.
pub open spec fn shape_ok(d: ColumnDataView, n: nat) -> bool {
    match d {
        ColumnDataView::Int32(v, l) => l.len() == n && v.len() == present_count(l),
        ColumnDataView::Int64(v, l) => l.len() == n && v.len() == present_count(l),
        ColumnDataView::Boolean(v, l) => l.len() == n && v.len() == present_count(l),
        ColumnDataView::Text(v, l) => l.len() == n && v.len() == present_count(l),
        ColumnDataView::Float(v, l) => l.len() == n && v.len() == present_count(l),
        ColumnDataView::Double(v, l) => l.len() == n && v.len() == present_count(l),
    }
}

proof fn lemma_levels_count(values: Seq<Option<String>>)
    ensures
        definition_levels(values).len() == values.len(),
        present_count(definition_levels(values)) == present(values).len(),
    decreases values.len(),
{
    if values.len() > 0 {
        lemma_levels_count(values.drop_last());
        assert(definition_levels(values).drop_last() =~= definition_levels(values.drop_last()));
    }
}

proof fn lemma_first_refused_bound<T>(texts: Seq<Seq<char>>, cellf: spec_fn(Seq<char>) -> Option<T>)
    ensures
        first_refused(texts, cellf) matches Some(j) ==> 0 <= j < texts.len(),
    decreases texts.len(),
{
    if texts.len() > 0 {
        lemma_first_refused_bound(texts.drop_last(), cellf);
    }
}

/// An encoded column has one definition level per cell and one value per
/// present cell; an encoding that fails names the column's type and the
/// text of one of its present cells.
pub proof fn lemma_encoded_column_shape(values: Seq<Option<String>>, kind: XsdType)
    ensures
        match encode_outcome(values, kind) {
            Ok(d) => shape_ok(d, values.len()),
            Err((k, text)) => k == kind && present(values).contains(text),
        },
{
    lemma_levels_count(values);
    let texts = present(values);
    lemma_first_refused_bound(texts, |t: Seq<char>| int32_cell(kind, t));
    lemma_first_refused_bound(texts, |t: Seq<char>| int64_cell(kind, t));
    lemma_first_refused_bound(texts, |t: Seq<char>| bool_cell(t));
    match encode_outcome(values, kind) {
        Err((k, text)) => {
            let j = match kind {
                XsdType::DateTime | XsdType::NonNegativeInteger => first_refused(
                    texts,
                    |t: Seq<char>| int64_cell(kind, t),
                )->0,
                XsdType::Boolean => first_refused(texts, |t: Seq<char>| bool_cell(t))->0,
                _ => first_refused(texts, |t: Seq<char>| int32_cell(kind, t))->0,
            };
            assert(texts[j] == text);
        },
        Ok(_) => {},
    }
}

// ---------------------------------------------------------------------------
// Laws over whole columns
// ---------------------------------------------------------------------------

/// The texts and the definition levels of two columns one after the other
/// are those of the first followed by those of the second.
pub proof fn lemma_present_concat(a: Seq<Option<String>>, b: Seq<Option<String>>)
    ensures
        present(a + b) == present(a) + present(b),
        definition_levels(a + b) == definition_levels(a) + definition_levels(b),
    decreases b.len(),
{
    if b.len() == 0 {
        assert(a + b =~= a);
    } else {
        lemma_present_concat(a, b.drop_last());
        assert((a + b).drop_last() =~= a + b.drop_last());
        assert((a + b).last() == b.last());
    }
    assert(definition_levels(a + b) =~= definition_levels(a) + definition_levels(b));
}

proof fn lemma_first_refused_concat<T>(
    t1: Seq<Seq<char>>,
    t2: Seq<Seq<char>>,
    cellf: spec_fn(Seq<char>) -> Option<T>,
)
    ensures
        first_refused(t1 + t2, cellf) == match first_refused(t1, cellf) {
            Some(j) => Some(j),
            None => match first_refused(t2, cellf) {
                Some(j) => Some(t1.len() + j),
                None => None,
            },
        },
    decreases t2.len(),
{
    if t2.len() == 0 {
        assert(t1 + t2 =~= t1);
    } else {
        lemma_first_refused_concat(t1, t2.drop_last(), cellf);
        assert((t1 + t2).drop_last() =~= t1 + t2.drop_last());
        assert((t1 + t2).last() == t2.last());
    }
}

proof fn lemma_read_cells_concat<T>(
    t1: Seq<Seq<char>>,
    t2: Seq<Seq<char>>,
    kind: XsdType,
    cellf: spec_fn(Seq<char>) -> Option<T>,
)
    ensures
        read_cells(t1 + t2, kind, cellf) == match read_cells(t1, kind, cellf) {
            Err(e) => Err(e),
            Ok(v1) => match read_cells(t2, kind, cellf) {
                Err(e) => Err(e),
                Ok(v2) => Ok(v1 + v2),
            },
        },
{
    lemma_first_refused_concat(t1, t2, cellf);
    lemma_first_refused_bound(t1, cellf);
    lemma_first_refused_bound(t2, cellf);
    let g = |t: Seq<char>| cellf(t)->0;
    assert((t1 + t2).map_values(g) =~= t1.map_values(g) + t2.map_values(g));
    if let Some(j) = first_refused(t2, cellf) {
        assert((t1 + t2)[t1.len() + j] == t2[j]);
    }
}

/// `parse_fn` gives one result for each text: strings with the same
/// characters get the same result.
pub open spec fn parse_fn_pure<T, F: Fn(&str) -> Result<T, ColumnError>>(parse_fn: F) -> bool {
    forall|x: &str, y: &str, o1: Result<T, ColumnError>, o2: Result<T, ColumnError>|
        x@ == y@ && #[trigger] call_ensures(parse_fn, (x,), o1) && #[trigger] call_ensures(
            parse_fn,
            (y,),
            o2,
        ) ==> o1 == o2
}

/// With a pure parse function, no text gives both a value and an error.
proof fn lemma_pure_gives_one<T, F: Fn(&str) -> Result<T, ColumnError>>(
    f: F,
    text: Seq<char>,
    o1: Result<T, ColumnError>,
    o2: Result<T, ColumnError>,
)
    requires
        parse_fn_pure::<T, F>(f),
        parse_fn_gives(f, text, o1),
        parse_fn_gives(f, text, o2),
    ensures
        o1 == o2,
{
    let x = choose|x: &str| x@ == text && #[trigger] call_ensures(f, (x,), o1);
    let y = choose|y: &str| y@ == text && #[trigger] call_ensures(f, (y,), o2);
    assert(call_ensures(f, (x,), o1) && call_ensures(f, (y,), o2));
}

/// With a pure parse function, a text that it accepts gives no error.
proof fn lemma_pure_accepts<T, F: Fn(&str) -> Result<T, ColumnError>>(
    f: F,
    text: Seq<char>,
    e: ColumnError,
)
    requires
        parse_fn_pure::<T, F>(f),
        parse_fn_accepts::<T, F>(f, text),
    ensures
        !parse_fn_gives(f, text, Err::<T, ColumnError>(e)),
{
    let (x, v) = choose|x: &str, v: T| x@ == text && #[trigger] call_ensures(
        f,
        (x,),
        Ok::<T, ColumnError>(v),
    );
    assert(parse_fn_gives(f, text, Ok::<T, ColumnError>(v)));
    if parse_fn_gives(f, text, Err::<T, ColumnError>(e)) {
        lemma_pure_gives_one(f, text, Ok::<T, ColumnError>(v), Err::<T, ColumnError>(e));
    }
}

/// Where a reading of `texts` fails at `j`, no reading that accepts all of
/// them, nor one that fails elsewhere, is possible with a pure function:
/// the failure sits at the first text that the function does not accept.
proof fn lemma_failure_index<T, F: Fn(&str) -> Result<T, ColumnError>>(
    f: F,
    texts: Seq<Seq<char>>,
    j: int,
    e: ColumnError,
    k: int,
    e2: ColumnError,
)
    requires
        parse_fn_pure::<T, F>(f),
        0 <= j < texts.len(),
        parse_fn_gives(f, texts[j], Err::<T, ColumnError>(e)),
        parses_all::<T, F>(f, texts.take(j)),
        0 <= k < texts.len(),
        parse_fn_gives(f, texts[k], Err::<T, ColumnError>(e2)),
        parses_all::<T, F>(f, texts.take(k)),
    ensures
        j == k,
        e == e2,
{
    if j < k {
        assert(texts.take(k)[j] == texts[j]);
        assert(parse_fn_accepts::<T, F>(f, texts.take(k)[j]));
        lemma_pure_accepts::<T, F>(f, texts[j], e);
    } else if k < j {
        assert(texts.take(j)[k] == texts[k]);
        assert(parse_fn_accepts::<T, F>(f, texts.take(j)[k]));
        lemma_pure_accepts::<T, F>(f, texts[k], e2);
    } else {
        lemma_pure_gives_one(f, texts[j], Err::<T, ColumnError>(e), Err::<T, ColumnError>(e2));
    }
}

/// With a pure parse function, reading two columns one after the other
/// gives the two readings one after the other: the values and the
/// definition levels of the first followed by those of the second, or else
/// the error of the first part that fails.
pub proof fn lemma_reading_concat<T, F: Fn(&str) -> Result<T, ColumnError>>(
    parse_fn: F,
    a: Seq<Option<String>>,
    b: Seq<Option<String>>,
    ra: Result<(Seq<T>, Seq<i16>), ColumnError>,
    rb: Result<(Seq<T>, Seq<i16>), ColumnError>,
    rab: Result<(Seq<T>, Seq<i16>), ColumnError>,
)
    requires
        parse_fn_pure::<T, F>(parse_fn),
        column_reading(parse_fn, a, ra),
        column_reading(parse_fn, b, rb),
        column_reading(parse_fn, a + b, rab),
    ensures
        rab == match ra {
            Err(e) => Err(e),
            Ok((va, da)) => match rb {
                Err(e) => Err(e),
                Ok((vb, db)) => Ok((va + vb, da + db)),
            },
        },
{
    let f = parse_fn;
    lemma_present_concat(a, b);
    let pa = present(a);
    let pb = present(b);
    let p = present(a + b);
    assert(p == pa + pb);
    match ra {
        Err(e) => {
            let j = choose|j: int|
                0 <= j < pa.len() && parse_fn_gives(f, #[trigger] pa[j], Err::<T, ColumnError>(e))
                    && parses_all::<T, F>(f, pa.take(j));
            assert(p[j] == pa[j]);
            assert(p.take(j) =~= pa.take(j));
            match rab {
                Ok((v, _)) => {
                    assert(parse_fn_gives(f, p[j], Ok::<T, ColumnError>(v[j])));
                    lemma_pure_gives_one(f, pa[j], Ok::<T, ColumnError>(v[j]), Err::<T, ColumnError>(e));
                },
                Err(e2) => {
                    let k = choose|k: int|
                        0 <= k < p.len() && parse_fn_gives(f, #[trigger] p[k], Err::<T, ColumnError>(e2))
                            && parses_all::<T, F>(f, p.take(k));
                    lemma_failure_index::<T, F>(f, p, j, e, k, e2);
                },
            }
        },
        Ok((va, da)) => {
            assert forall|i: int| 0 <= i < pa.len() implies parse_fn_accepts::<T, F>(
                f,
                #[trigger] p[i],
            ) by {
                assert(p[i] == pa[i]);
                assert(parse_fn_gives(f, pa[i], Ok::<T, ColumnError>(va[i])));
            }
            match rb {
                Err(e) => {
                    let j0 = choose|j: int|
                        0 <= j < pb.len() && parse_fn_gives(f, #[trigger] pb[j], Err::<T, ColumnError>(e))
                            && parses_all::<T, F>(f, pb.take(j));
                    let j = pa.len() + j0;
                    assert(p[j] == pb[j0]);
                    assert forall|i: int| 0 <= i < j implies parse_fn_accepts::<T, F>(
                        f,
                        #[trigger] p.take(j)[i],
                    ) by {
                        assert(p.take(j)[i] == p[i]);
                        if i >= pa.len() {
                            assert(p[i] == pb[i - pa.len()]);
                            assert(pb.take(j0)[i - pa.len()] == pb[i - pa.len()]);
                        }
                    }
                    assert(parses_all::<T, F>(f, p.take(j)));
                    match rab {
                        Ok((v, _)) => {
                            assert(parse_fn_gives(f, p[j], Ok::<T, ColumnError>(v[j])));
                            lemma_pure_gives_one(
                                f,
                                p[j],
                                Ok::<T, ColumnError>(v[j]),
                                Err::<T, ColumnError>(e),
                            );
                        },
                        Err(e2) => {
                            let k = choose|k: int|
                                0 <= k < p.len() && parse_fn_gives(
                                    f,
                                    #[trigger] p[k],
                                    Err::<T, ColumnError>(e2),
                                ) && parses_all::<T, F>(f, p.take(k));
                            lemma_failure_index::<T, F>(f, p, j, e, k, e2);
                        },
                    }
                },
                Ok((vb, db)) => {
                    match rab {
                        Ok((v, d)) => {
                            assert forall|i: int| 0 <= i < v.len() implies v[i] == (va + vb)[i] by {
                                assert(parse_fn_gives(f, p[i], Ok::<T, ColumnError>(v[i])));
                                if i < pa.len() {
                                    assert(parse_fn_gives(f, pa[i], Ok::<T, ColumnError>(va[i])));
                                    lemma_pure_gives_one(
                                        f,
                                        p[i],
                                        Ok::<T, ColumnError>(v[i]),
                                        Ok::<T, ColumnError>(va[i]),
                                    );
                                } else {
                                    let i0 = i - pa.len();
                                    assert(p[i] == pb[i0]);
                                    assert(parse_fn_gives(f, pb[i0], Ok::<T, ColumnError>(vb[i0])));
                                    lemma_pure_gives_one(
                                        f,
                                        p[i],
                                        Ok::<T, ColumnError>(v[i]),
                                        Ok::<T, ColumnError>(vb[i0]),
                                    );
                                }
                            }
                            assert(v =~= va + vb);
                        },
                        Err(e2) => {
                            let k = choose|k: int|
                                0 <= k < p.len() && parse_fn_gives(
                                    f,
                                    #[trigger] p[k],
                                    Err::<T, ColumnError>(e2),
                                ) && parses_all::<T, F>(f, p.take(k));
                            if k < pa.len() {
                                assert(p[k] == pa[k]);
                                assert(parse_fn_gives(f, pa[k], Ok::<T, ColumnError>(va[k])));
                                lemma_pure_gives_one(
                                    f,
                                    p[k],
                                    Ok::<T, ColumnError>(va[k]),
                                    Err::<T, ColumnError>(e2),
                                );
                            } else {
                                let k0 = k - pa.len();
                                assert(p[k] == pb[k0]);
                                assert(parse_fn_gives(f, pb[k0], Ok::<T, ColumnError>(vb[k0])));
                                lemma_pure_gives_one(
                                    f,
                                    p[k],
                                    Ok::<T, ColumnError>(vb[k0]),
                                    Err::<T, ColumnError>(e2),
                                );
                            }
                        },
                    }
                },
            }
        },
    }
}

/// Two encoded columns of one type, the cells of the second after those of
/// the first.
pub open spec fn append_columns(d1: ColumnDataView, d2: ColumnDataView) -> ColumnDataView {
    match (d1, d2) {
        (ColumnDataView::Int32(v1, l1), ColumnDataView::Int32(v2, l2)) => ColumnDataView::Int32(
            v1 + v2,
            l1 + l2,
        ),
        (ColumnDataView::Int64(v1, l1), ColumnDataView::Int64(v2, l2)) => ColumnDataView::Int64(
            v1 + v2,
            l1 + l2,
        ),
        (ColumnDataView::Boolean(v1, l1), ColumnDataView::Boolean(v2, l2)) => ColumnDataView::Boolean(
            v1 + v2,
            l1 + l2,
        ),
        (ColumnDataView::Text(v1, l1), ColumnDataView::Text(v2, l2)) => ColumnDataView::Text(
            v1 + v2,
            l1 + l2,
        ),
        (ColumnDataView::Float(v1, l1), ColumnDataView::Float(v2, l2)) => ColumnDataView::Float(
            v1 + v2,
            l1 + l2,
        ),
        (ColumnDataView::Double(v1, l1), ColumnDataView::Double(v2, l2)) => ColumnDataView::Double(
            v1 + v2,
            l1 + l2,
        ),
        _ => d1,
    }
}

/// Encoding a column cut in two parts: the error of the first part where
/// it has one, else the error of the second, else the two encodings one
/// after the other.
pub open spec fn append_outcomes(
    x: Result<ColumnDataView, (XsdType, Seq<char>)>,
    y: Result<ColumnDataView, (XsdType, Seq<char>)>,
) -> Result<ColumnDataView, (XsdType, Seq<char>)> {
    match x {
        Err(e) => Err(e),
        Ok(d1) => match y {
            Err(e) => Err(e),
            Ok(d2) => Ok(append_columns(d1, d2)),
        },
    }
}

/// Encoding the concatenation of two columns gives the concatenation of
/// their encodings, and the first failing cell of the whole is the first
/// failing cell of the first part that has one.
pub proof fn lemma_encode_concat(a: Seq<Option<String>>, b: Seq<Option<String>>, kind: XsdType)
    ensures
        encode_outcome(a + b, kind) == append_outcomes(
            encode_outcome(a, kind),
            encode_outcome(b, kind),
        ),
{
    lemma_present_concat(a, b);
    let ta = present(a);
    let tb = present(b);
    lemma_read_cells_concat(ta, tb, kind, |t: Seq<char>| int32_cell(kind, t));
    lemma_read_cells_concat(ta, tb, kind, |t: Seq<char>| int64_cell(kind, t));
    lemma_read_cells_concat(ta, tb, kind, |t: Seq<char>| bool_cell(t));
}

/// The values and definition levels of a column keep its cells: one level
/// per cell, 1 where the cell is present and 0 where it is not, and the text
/// of each present cell, unchanged, at its place among the present cells.
pub open spec fn keeps_cell_texts(values: Seq<Option<String>>, v: Seq<Seq<char>>, l: Seq<i16>) -> bool {
    &&& v.len() == present(values).len()
    &&& l.len() == values.len()
    &&& forall|k: int|
        0 <= k < values.len() ==> match #[trigger] values[k] {
            Some(t) => l[k] == 1 && v[present(values.take(k)).len() as int] == t@,
            None => l[k] == 0,
        }
}

/// The text of the cell at `k`, where it is present, stands at its place
/// among the present texts.
proof fn lemma_present_at(values: Seq<Option<String>>, k: int)
    requires
        0 <= k < values.len(),
        values[k] is Some,
    ensures
        present(values.take(k)).len() < present(values).len(),
        present(values)[present(values.take(k)).len() as int] == values[k]->0@,
{
    lemma_present_prefix(values, k + 1);
    assert(values.take(k + 1).drop_last() =~= values.take(k));
    let p = present(values.take(k + 1));
    assert(p == present(values.take(k)).push(values[k]->0@));
    assert(present(values).take(p.len() as int)[present(values.take(k)).len() as int] == p[present(
        values.take(k),
    ).len() as int]);
}

/// Floating-point and string columns are not read: their encoding keeps
/// the text of every present cell exactly as the cell holds it, for the
/// writer to read, and marks each cell present or absent.
pub proof fn lemma_text_columns_keep_cells(values: Seq<Option<String>>)
    ensures
        encode_outcome(values, XsdType::Float) matches Ok(ColumnDataView::Float(v, l))
            && keeps_cell_texts(values, v, l),
        encode_outcome(values, XsdType::Double) matches Ok(ColumnDataView::Double(v, l))
            && keeps_cell_texts(values, v, l),
        encode_outcome(values, XsdType::String) matches Ok(ColumnDataView::Text(v, l))
            && keeps_cell_texts(values, v, l),
{
    assert forall|k: int| 0 <= k < values.len() && values[k] is Some implies present(values)[present(
        values.take(k),
    ).len() as int] == (#[trigger] values[k])->0@ by {
        lemma_present_at(values, k);
    }
    lemma_levels_count(values);
}

/// Every present text comes from a present cell: the `j`-th present text is
/// the text of the cell at the returned index.
proof fn lemma_present_from(values: Seq<Option<String>>, j: int) -> (k: int)
    requires
        0 <= j < present(values).len(),
    ensures
        0 <= k < values.len(),
        values[k] is Some,
        present(values.take(k)).len() == j,
    decreases values.len(),
{
    let p = values.drop_last();
    assert(values.take(values.len() - 1) =~= p);
    if j < present(p).len() {
        let k = lemma_present_from(p, j);
        assert(p.take(k) =~= values.take(k));
        assert(p[k] == values[k]);
        k
    } else {
        values.len() - 1
    }
}

/// Fewer cells have no more present texts.
proof fn lemma_present_monotone(values: Seq<Option<String>>, k1: int, k2: int)
    requires
        0 <= k1 <= k2 <= values.len(),
    ensures
        present(values.take(k1)).len() <= present(values.take(k2)).len(),
{
    lemma_present_prefix(values.take(k2), k1);
    assert(values.take(k2).take(k1) =~= values.take(k1));
}

/// Reading the present cells one by one: where every present cell reads,
/// each value stands at the place of its cell among the present cells;
/// where some does not, the first such cell's text is the error.
proof fn lemma_read_cells_by_cell<T>(
    values: Seq<Option<String>>,
    kind: XsdType,
    cellf: spec_fn(Seq<char>) -> Option<T>,
)
    ensures
        (forall|k: int|
            0 <= k < values.len() && #[trigger] values[k] is Some ==> cellf(values[k]->0@) is Some)
            ==> (read_cells(present(values), kind, cellf) matches Ok(v) && v.len() == present(
            values,
        ).len() && forall|k: int|
            0 <= k < values.len() && #[trigger] values[k] is Some ==> v[present(values.take(k)).len() as int]
                == cellf(values[k]->0@)->0),
        forall|k: int|
            0 <= k < values.len() && #[trigger] values[k] is Some && cellf(values[k]->0@) is None && (
            forall|j: int| 0 <= j < k && #[trigger] values[j] is Some ==> cellf(values[j]->0@) is Some)
                ==> read_cells(present(values), kind, cellf) == Err::<Seq<T>, (XsdType, Seq<char>)>(
                (kind, values[k]->0@),
            ),
{
    let texts = present(values);
    if forall|k: int| 0 <= k < values.len() && #[trigger] values[k] is Some ==> cellf(values[k]->0@) is Some {
        assert forall|j: int| 0 <= j < texts.len() implies #[trigger] cellf(texts[j]) is Some by {
            let k = lemma_present_from(values, j);
            lemma_present_at(values, k);
        }
        lemma_first_refused_none(texts, cellf);
        assert forall|k: int| 0 <= k < values.len() && #[trigger] values[k] is Some implies texts.map_values(
            |t: Seq<char>| cellf(t)->0,
        )[present(values.take(k)).len() as int] == cellf(values[k]->0@)->0 by {
            lemma_present_at(values, k);
        }
    }
    assert forall|k: int|
        0 <= k < values.len() && #[trigger] values[k] is Some && cellf(values[k]->0@) is None && (
        forall|j: int| 0 <= j < k && #[trigger] values[j] is Some ==> cellf(values[j]->0@) is Some)
        implies read_cells(texts, kind, cellf) == Err::<Seq<T>, (XsdType, Seq<char>)>(
        (kind, values[k]->0@),
    ) by {
        lemma_present_at(values, k);
        let j = present(values.take(k)).len() as int;
        assert forall|j2: int| 0 <= j2 < j implies #[trigger] cellf(texts[j2]) is Some by {
            let k2 = lemma_present_from(values, j2);
            lemma_present_at(values, k2);
            if k2 >= k {
                lemma_present_monotone(values, k, k2);
            }
            assert(values[k2] is Some);
        }
        lemma_first_refused_at(texts, cellf, j);
    }
}

/// The integer read from a cell's text for a type with values `lo..=hi`,
/// as `str::parse` reads it: an optional sign and ASCII digits.
pub open spec fn decimal_in(t: Seq<char>, lo: int, hi: int) -> bool {
    &&& signed_decimal(t) is Some
    &&& lo <= signed_decimal(t)->0 <= hi
}

/// The text reads as a decimal integer that fits in 64 bits without sign,
/// as `str::parse` reads it.
pub open spec fn unsigned_fits(t: Seq<char>) -> bool {
    &&& unsigned_decimal(t) is Some
    &&& 0 <= unsigned_decimal(t)->0 <= u64::MAX
}

/// The text is one of the four boolean texts.
pub open spec fn boolean_text(t: Seq<char>) -> bool {
    t == "true"@ || t == "1"@ || t == "false"@ || t == "0"@
}

/// An integer column of a signed XSD type (`byte`, `short`, `int`) holds,
/// where every present cell reads as a decimal integer in the type's
/// range, that integer for each present cell at its place and one
/// definition level per cell; otherwise its encoding fails on the first
/// present cell that does not read, naming the type and the cell's text.
pub proof fn lemma_signed_integer_columns(values: Seq<Option<String>>, kind: XsdType, lo: int, hi: int)
    requires
        (kind == XsdType::Byte && lo == -128 && hi == 127) || (kind == XsdType::Short && lo == -32768
            && hi == 32767) || (kind == XsdType::Int && lo == -2147483648 && hi == 2147483647),
    ensures
        (forall|k: int|
            0 <= k < values.len() && #[trigger] values[k] is Some ==> decimal_in(
                values[k]->0@,
                lo,
                hi,
            )) ==> (encode_outcome(values, kind) matches Ok(ColumnDataView::Int32(v, l)) && {
            &&& v.len() == present(values).len()
            &&& l == definition_levels(values)
            &&& forall|k: int|
                0 <= k < values.len() && #[trigger] values[k] is Some ==> v[present(
                    values.take(k),
                ).len() as int] as int == signed_decimal(values[k]->0@)->0
        }),
        forall|k: int|
            0 <= k < values.len() && #[trigger] values[k] is Some && !decimal_in(values[k]->0@, lo, hi)
                && (forall|j: int|
                0 <= j < k && #[trigger] values[j] is Some ==> decimal_in(values[j]->0@, lo, hi))
                ==> encode_outcome(values, kind) == Err::<ColumnDataView, (XsdType, Seq<char>)>(
                (kind, values[k]->0@),
            ),
{
    let cellf = |t: Seq<char>| int32_cell(kind, t);
    assert forall|t: Seq<char>| #[trigger] cellf(t) is Some <==> decimal_in(t, lo, hi) by {}
    assert forall|t: Seq<char>| decimal_in(t, lo, hi) implies #[trigger] cellf(t)->0 as int
        == signed_decimal(t)->0 by {}
    lemma_read_cells_by_cell(values, kind, cellf);
}

/// A column of non-negative integers holds, where every present cell reads
/// as a decimal integer that fits in 64 bits, that integer for each present
/// cell at its place (stored with the same bits as a signed 64-bit value)
/// and one definition level per cell; otherwise its encoding fails on the
/// first present cell that does not read.
pub proof fn lemma_unsigned_integer_columns(values: Seq<Option<String>>)
    ensures
        (forall|k: int|
            0 <= k < values.len() && #[trigger] values[k] is Some ==> unsigned_fits(values[k]->0@))
            ==> (encode_outcome(values, XsdType::NonNegativeInteger) matches Ok(
            ColumnDataView::Int64(v, l),
        ) && {
            &&& v.len() == present(values).len()
            &&& l == definition_levels(values)
            &&& forall|k: int|
                0 <= k < values.len() && #[trigger] values[k] is Some ==> v[present(
                    values.take(k),
                ).len() as int] as u64 as int == unsigned_decimal(values[k]->0@)->0
        }),
        forall|k: int|
            0 <= k < values.len() && #[trigger] values[k] is Some && !unsigned_fits(values[k]->0@) && (
            forall|j: int| 0 <= j < k && #[trigger] values[j] is Some ==> unsigned_fits(values[j]->0@))
                ==> encode_outcome(values, XsdType::NonNegativeInteger) == Err::<
                ColumnDataView,
                (XsdType, Seq<char>),
            >((XsdType::NonNegativeInteger, values[k]->0@)),
{
    let kind = XsdType::NonNegativeInteger;
    let cellf = |t: Seq<char>| int64_cell(kind, t);
    assert forall|t: Seq<char>| #[trigger] cellf(t) is Some <==> unsigned_fits(t) by {}
    assert forall|t: Seq<char>| unsigned_fits(t) implies #[trigger] cellf(
        t,
    )->0 as u64 as int == unsigned_decimal(t)->0 by {
        let x = unsigned_decimal(t)->0;
        let y = x as u64;
        assert((y as i64) as u64 == y) by (bit_vector);
        assert(y as int == x);
    }
    lemma_read_cells_by_cell(values, kind, cellf);
}

/// A boolean column holds `true` for the cells `true` and `1` and `false`
/// for `false` and `0`, each at its place among the present cells, with one
/// definition level per cell; a present cell with any other text makes the
/// first such cell's text the error.
pub proof fn lemma_boolean_columns(values: Seq<Option<String>>)
    ensures
        (forall|k: int|
            0 <= k < values.len() && #[trigger] values[k] is Some ==> boolean_text(values[k]->0@))
            ==> (encode_outcome(values, XsdType::Boolean) matches Ok(ColumnDataView::Boolean(v, l))
            && {
            &&& v.len() == present(values).len()
            &&& l == definition_levels(values)
            &&& forall|k: int|
                0 <= k < values.len() && #[trigger] values[k] is Some ==> v[present(
                    values.take(k),
                ).len() as int] == (values[k]->0@ == "true"@ || values[k]->0@ == "1"@)
        }),
        forall|k: int|
            0 <= k < values.len() && #[trigger] values[k] is Some && !boolean_text(values[k]->0@) && (
            forall|j: int| 0 <= j < k && #[trigger] values[j] is Some ==> boolean_text(values[j]->0@))
                ==> encode_outcome(
                values,
                XsdType::Boolean,
            ) == Err::<ColumnDataView, (XsdType, Seq<char>)>((XsdType::Boolean, values[k]->0@)),
{
    reveal_strlit("true");
    reveal_strlit("1");
    reveal_strlit("false");
    reveal_strlit("0");
    let cellf = |t: Seq<char>| bool_cell(t);
    assert("true"@.len() == 4 && "false"@.len() == 5 && "1"@.len() == 1 && "0"@.len() == 1);
    assert("1"@[0] != "0"@[0]);
    lemma_read_cells_by_cell(values, XsdType::Boolean, cellf);
}

/// The Parquet physical type that holds the values of an encoded column.
pub open spec fn physical_type(d: ColumnDataView) -> Seq<char> {
    match d {
        ColumnDataView::Int32(..) => "INT32"@,
        ColumnDataView::Int64(..) => "INT64"@,
        ColumnDataView::Boolean(..) => "BOOLEAN"@,
        ColumnDataView::Text(..) => "BINARY"@,
        ColumnDataView::Float(..) => "FLOAT"@,
        ColumnDataView::Double(..) => "DOUBLE"@,
    }
}

/// The definition line of a field declares an optional column of the
/// physical type in which the field's encoded values come, and every
/// definition level of the column is 0 or 1, as an optional column has.
pub proof fn lemma_line_matches_encoding(values: Seq<Option<String>>, kind: XsdType, name: Seq<char>)
    ensures
        encode_outcome(values, kind) matches Ok(d) ==> parquet_line(kind, name) == "  OPTIONAL "@
            + physical_type(d) + " "@ + name + parquet_annotation(kind),
        forall|k: int|
            0 <= k < values.len() ==> #[trigger] definition_levels(values)[k] == 0
                || definition_levels(values)[k] == 1,
{
    reveal_strlit("  OPTIONAL ");
    reveal_strlit(" ");
    reveal_strlit("INT32");
    reveal_strlit("INT64");
    reveal_strlit("BOOLEAN");
    reveal_strlit("BINARY");
    reveal_strlit("FLOAT");
    reveal_strlit("DOUBLE");
    reveal_strlit("  OPTIONAL INT32 ");
    reveal_strlit("  OPTIONAL INT64 ");
    reveal_strlit("  OPTIONAL BOOLEAN ");
    reveal_strlit("  OPTIONAL BINARY ");
    reveal_strlit("  OPTIONAL FLOAT ");
    reveal_strlit("  OPTIONAL DOUBLE ");
    if let Ok(d) = encode_outcome(values, kind) {
        assert(crate::schema::parquet_physical(kind) =~= "  OPTIONAL "@ + physical_type(d) + " "@);
    }
}

/// The texts of the present cells, with the definition levels of all cells.
fn text_column(values: &[Option<String>]) -> (r: (Vec<String>, Vec<i16>))
    ensures
        strings_view(r.0@) == present(values@),
        r.1@ == definition_levels(values@),
{
    let mut texts: Vec<String> = Vec::new();
    let mut def_levels: Vec<i16> = Vec::new();
    let n = values.len();
    for i in 0..n
        invariant
            n == values@.len(),
            strings_view(texts@) == present(values@.take(i as int)),
            def_levels@ == definition_levels(values@.take(i as int)),
    {
        assert(values@.take(i + 1).drop_last() =~= values@.take(i as int));
        match &values[i] {
            Some(s) => {
                texts.push(s.clone());
                def_levels.push(1);
            },
            None => {
                def_levels.push(0);
            },
        }
        assert(strings_view(texts@) =~= present(values@.take(i + 1)));
        assert(def_levels@ =~= definition_levels(values@.take(i + 1)));
    }
    assert(values@.take(n as int) =~= values@);
    (texts, def_levels)
}

/// Encodes a column of the given type for the Parquet writer: the present
/// cells read as values of the type and the definition level of every
/// cell. A cell that does not read as its type stops the encoding with an
/// error that names the type and the cell's text. The date of a date cell
/// is read from its first ten bytes, which must end on a character
/// boundary.
pub fn encode_column(values: &[Option<String>], xsd: XsdType) -> (r: Result<
    ColumnData,
    ColumnError,
>)
    requires
        xsd == XsdType::Date ==> date_cells_ok(values@),
    ensures
        match r {
            Ok(d) => encode_outcome(values@, xsd) == Ok::<ColumnDataView, (XsdType, Seq<char>)>(d@),
            Err(e) => encode_outcome(values@, xsd) == Err::<ColumnDataView, (XsdType, Seq<char>)>(
                e@,
            ),
        },
{
    match xsd {
        XsdType::Byte | XsdType::Short | XsdType::Int | XsdType::Date => {
            let read = |s: &str| -> (r: Result<i32, ColumnError>)
                requires
                    xsd == XsdType::Date ==> date_prefix_ok(s@),
                ensures
                    cell_result(r, int32_cell(xsd, s@), xsd, s@),
                { read_int32(xsd, s) };
            assert forall|x: &str| present(values@).contains(x@) implies call_requires(
                read,
                (x,),
            ) by {
                if xsd == XsdType::Date {
                    let k = choose|k: int| 0 <= k < present(values@).len() && present(values@)[k] == x@;
                    assert(date_prefix_ok(present(values@)[k]));
                }
            }
            let r = parse_int32_column(values, read);
            proof {
                lemma_read_cells(read, values@, xsd, |t: Seq<char>| int32_cell(xsd, t), r);
            }
            match r {
                Ok((values, def_levels)) => Ok(ColumnData::Int32 { values, def_levels }),
                Err(e) => Err(e),
            }
        },
        XsdType::DateTime | XsdType::NonNegativeInteger => {
            let read = |s: &str| -> (r: Result<i64, ColumnError>)
                ensures
                    cell_result(r, int64_cell(xsd, s@), xsd, s@),
                { read_int64(xsd, s) };
            let r = parse_int64_column(values, read);
            proof {
                lemma_read_cells(read, values@, xsd, |t: Seq<char>| int64_cell(xsd, t), r);
            }
            match r {
                Ok((values, def_levels)) => Ok(ColumnData::Int64 { values, def_levels }),
                Err(e) => Err(e),
            }
        },
        XsdType::Boolean => {
            let read = |s: &str| -> (r: Result<bool, ColumnError>)
                ensures
                    cell_result(r, bool_cell(s@), XsdType::Boolean, s@),
                { read_bool(s) };
            let r = parse_column(values, read);
            proof {
                lemma_read_cells(read, values@, xsd, |t: Seq<char>| bool_cell(t), r);
            }
            match r {
                Ok((values, def_levels)) => Ok(ColumnData::Boolean { values, def_levels }),
                Err(e) => Err(e),
            }
        },
        XsdType::String => {
            let (values, def_levels) = text_column(values);
            Ok(ColumnData::Text { values, def_levels })
        },
        XsdType::Float => {
            let (values, def_levels) = text_column(values);
            Ok(ColumnData::Float { values, def_levels })
        },
        XsdType::Double => {
            let (values, def_levels) = text_column(values);
            Ok(ColumnData::Double { values, def_levels })
        },
    }
}

} // verus!
