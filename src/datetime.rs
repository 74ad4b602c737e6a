use vstd::prelude::*;
use chrono::{Datelike, Timelike};
use crate::chars::{digit_value, is_digit, is_digit_char};
use crate::errors::{FormatError, ParserError, UnallowedCharacterReason};
use crate::number::{all_digits, digits_value, is_terminator, is_terminator_char};
use crate::reader::Supplier;
use crate::scan::{char_at, last_read_ahead, last_read_closed, reads_until, TypeParser, end_within, offset_within, fail, lemma_skip_back, lemma_skip_next, scan_end, yields, yields_until, Scan};

verus! {

/// A calendar date.
#[derive(Debug, Clone, Copy, PartialEq, Eq, Structural)]
pub struct Date {
    pub year: u16,
    pub month: u8,
    pub day: u8,
}

/// A time of day.
#[derive(Debug, Clone, Copy, PartialEq, Eq, Structural)]
pub struct Time {
    pub hour: u8,
    pub minute: u8,
    pub second: u8,
    pub nanosecond: u32,
}

/// A date, a time, or both; a time may carry an offset from UTC in seconds.
#[derive(Debug, Clone, Copy, PartialEq, Eq, Structural)]
pub enum DateTimeType {
    Date(Date),
    Time(Time, Option<i32>),
    DateTime(Date, Time, Option<i32>),
}

impl View for DateTimeType {
    type V = DateTimeType;

    open spec fn view(&self) -> DateTimeType {
        *self
    }
}

/// A moment in UTC, by its calendar fields.
#[derive(Debug, Clone, Copy, PartialEq, Eq, Structural)]
pub struct Instant {
    pub year: i32,
    pub month: u8,
    pub day: u8,
    pub hour: u8,
    pub minute: u8,
    pub second: u8,
    pub nanosecond: u32,
}

/// The UTC moment of the local date `d` and time `t` at `offset` seconds east
/// of UTC, as chrono computes it.
pub uninterp spec fn utc_instant(d: Date, t: Time, offset: i32) -> Option<Instant>;

/// Relies on `chrono::NaiveDateTime::checked_sub_offset`: the local date and
/// time with the offset taken away, that is the moment in UTC; `None` where
/// chrono refuses the fields or the offset, or the result leaves its range.
#[verifier::external_body]
fn to_utc(d: Date, t: Time, offset: i32) -> (r: Option<Instant>)
    ensures
        r == utc_instant(d, t, offset),
{
    let day = chrono::NaiveDate::from_ymd_opt(d.year as i32, d.month as u32, d.day as u32)?;
    let time = chrono::NaiveTime::from_hms_nano_opt(t.hour as u32, t.minute as u32, t.second as u32, t.nanosecond)?;
    let at = day.and_time(time).checked_sub_offset(chrono::FixedOffset::east_opt(offset)?)?;
    let (month, date, hour, minute, second) = (at.month() as u8, at.day() as u8, at.hour() as u8, at.minute() as u8, at.second() as u8);
    Some(Instant { year: at.year(), month, day: date, hour, minute, second, nanosecond: at.nanosecond() })
}

impl DateTimeType {
    /// The moment in UTC that a date and time with an offset stands for;
    /// `None` for a value without a date, a time and an offset.
    pub fn instant(&self) -> (r: Option<Instant>)
        ensures
            r == (match *self {
                DateTimeType::DateTime(d, t, Some(o)) => utc_instant(d, t, o),
                _ => None,
            }),
    {
        match *self {
            DateTimeType::DateTime(d, t, Some(o)) => to_utc(d, t, o),
            _ => None,
        }
    }
}

pub open spec fn is_leap_year(y: nat) -> bool {
    (y % 4 == 0 && y % 100 != 0) || y % 400 == 0
}

pub open spec fn days_in_month(y: nat, m: nat) -> nat {
    if m == 2 {
        if is_leap_year(y) { 29 } else { 28 }
    } else if m == 4 || m == 6 || m == 9 || m == 11 {
        30
    } else {
        31
    }
}

/// A day that the proleptic Gregorian calendar has.
pub open spec fn is_valid_date(d: Date) -> bool {
    1 <= d.month <= 12 && 1 <= d.day <= days_in_month(d.year as nat, d.month as nat)
}

/// A time that exists on a day: a nanosecond count of a second or more
/// stands for a leap second, and only in the last second of a minute.
pub open spec fn is_valid_time(t: Time) -> bool {
    &&& t.hour < 24
    &&& t.minute < 60
    &&& t.second < 60
    &&& t.nanosecond < 1_000_000_000 || (t.second == 59 && t.nanosecond < 2_000_000_000)
}

/// An offset from UTC of less than a day.
pub open spec fn is_valid_offset(seconds: int) -> bool {
    -86_400 < seconds < 86_400
}

/// Relies on `chrono::NaiveDate::from_ymd_opt`: `Some` exactly for a day of
/// the proleptic Gregorian calendar within its range of years, which holds
/// every year that 16 bits can write.
#[verifier::external_body]
fn date_exists(d: Date) -> (r: bool)
    ensures
        r == is_valid_date(d),
{
    chrono::NaiveDate::from_ymd_opt(d.year as i32, d.month as u32, d.day as u32).is_some()
}

/// Relies on `chrono::NaiveTime::from_hms_nano_opt`: `Some` exactly for an
/// hour, minute, second and nanosecond of a day, as `is_valid_time` states.
#[verifier::external_body]
fn time_exists(t: Time) -> (r: bool)
    ensures
        r == is_valid_time(t),
{
    chrono::NaiveTime::from_hms_nano_opt(
        t.hour as u32,
        t.minute as u32,
        t.second as u32,
        t.nanosecond,
    ).is_some()
}

/// Relies on `chrono::FixedOffset::east_opt`: `Some` exactly for an offset of
/// less than a day either way.
#[verifier::external_body]
fn offset_exists(seconds: i32) -> (r: bool)
    ensures
        r == is_valid_offset(seconds as int),
{
    chrono::FixedOffset::east_opt(seconds).is_some()
}

/// A character that may end a component of a date or a time.
pub open spec fn is_datetime_boundary(c: char) -> bool {
    c == '-' || c == ':' || c == '.' || c == 'T' || c == 'Z' || c == '+' || is_terminator(c)
}

/// The error where `t[p]` should be a digit of the component `pattern`: a
/// character foreign to dates and times is refused, anything else means the
/// component is cut short.
pub open spec fn bad_digit<V>(
    t: Seq<char>,
    p: nat,
    pattern: &'static str,
    reason: UnallowedCharacterReason,
) -> Scan<V> {
    if p < t.len() && !is_datetime_boundary(t[p as int]) {
        fail(FormatError::UnallowedCharacter(t[p as int], reason), p, t)
    } else {
        fail(FormatError::ExpectedSequence(pattern), p, t)
    }
}

/// The error where `t[p]` should be the separator before the component `pattern`.
pub open spec fn bad_separator<V>(
    t: Seq<char>,
    p: nat,
    pattern: &'static str,
    reason: UnallowedCharacterReason,
) -> Scan<V> {
    if p < t.len() && !is_datetime_boundary(t[p as int]) && !is_digit(t[p as int]) {
        fail(FormatError::UnallowedCharacter(t[p as int], reason), p, t)
    } else {
        fail(FormatError::ExpectedSequence(pattern), p, t)
    }
}

/// `n` digits from `t[p]` on, read onto `acc`.
pub open spec fn read_digits(
    t: Seq<char>,
    p: nat,
    n: nat,
    acc: nat,
    pattern: &'static str,
    reason: UnallowedCharacterReason,
) -> Scan<nat>
    decreases n,
{
    if n == 0 {
        Scan::Done { value: acc, end: p }
    } else if p < t.len() && is_digit(t[p as int]) {
        read_digits(t, p + 1, (n - 1) as nat, acc * 10 + digit_value(t[p as int]), pattern, reason)
    } else {
        bad_digit(t, p, pattern, reason)
    }
}

pub open spec fn has_separator(t: Seq<char>, p: nat, sep: char) -> bool {
    p < t.len() && t[p as int] == sep
}

pub open spec fn pow10(n: nat) -> nat
    decreases n,
{
    if n == 0 {
        1
    } else {
        10 * pow10((n - 1) as nat)
    }
}

/// The first index from `p` on that holds no digit.
pub open spec fn digit_run_end(t: Seq<char>, p: nat) -> nat
    decreases t.len() - p,
{
    if p < t.len() && is_digit(t[p as int]) {
        digit_run_end(t, p + 1)
    } else {
        p
    }
}

/// `m` zero digits.
pub open spec fn zeros(m: nat) -> Seq<char> {
    Seq::new(m, |k: int| '0')
}

/// The nanoseconds that the fractional digits `ds` write: the first nine,
/// filled up with zeros.
pub open spec fn nanoseconds(ds: Seq<char>) -> nat {
    if ds.len() >= 9 {
        digits_value(ds.take(9))
    } else {
        digits_value(ds + zeros((9 - ds.len()) as nat))
    }
}

/// The date `YYYY-MM-DD` at the start of `t`.
pub open spec fn scan_date_fields(t: Seq<char>) -> Scan<Date> {
    let r = UnallowedCharacterReason::InTypeDate;
    match read_digits(t, 0, 4, 0, "YYYY", r) {
        Scan::Failed { error, offset, end } => Scan::Failed { error, offset, end },
        Scan::Done { value: y, .. } => if !has_separator(t, 4, '-') {
            bad_separator(t, 4, "MM", r)
        } else {
            match read_digits(t, 5, 2, 0, "MM", r) {
                Scan::Failed { error, offset, end } => Scan::Failed { error, offset, end },
                Scan::Done { value: m, .. } => if !has_separator(t, 7, '-') {
                    bad_separator(t, 7, "DD", r)
                } else {
                    match read_digits(t, 8, 2, 0, "DD", r) {
                        Scan::Failed { error, offset, end } => Scan::Failed { error, offset, end },
                        Scan::Done { value: d, .. } => Scan::Done {
                            value: Date { year: y as u16, month: m as u8, day: d as u8 },
                            end: 10,
                        },
                    }
                },
            }
        },
    }
}

/// The time `HH:mm:ss[.fff…]` from `t[b]` on.
pub open spec fn scan_time_fields(t: Seq<char>, b: nat, r: UnallowedCharacterReason) -> Scan<Time> {
    match read_digits(t, b, 2, 0, "HH", r) {
        Scan::Failed { error, offset, end } => Scan::Failed { error, offset, end },
        Scan::Done { value: h, .. } => if !has_separator(t, b + 2, ':') {
            bad_separator(t, b + 2, "mm", r)
        } else {
            match read_digits(t, b + 3, 2, 0, "mm", r) {
                Scan::Failed { error, offset, end } => Scan::Failed { error, offset, end },
                Scan::Done { value: m, .. } => if !has_separator(t, b + 5, ':') {
                    bad_separator(t, b + 5, "ss", r)
                } else {
                    match read_digits(t, b + 6, 2, 0, "ss", r) {
                        Scan::Failed { error, offset, end } => Scan::Failed { error, offset, end },
                        Scan::Done { value: s, .. } => if !has_separator(t, b + 8, '.') {
                            Scan::Done {
                                value: Time { hour: h as u8, minute: m as u8, second: s as u8, nanosecond: 0 },
                                end: b + 8,
                            }
                        } else if !(b + 9 < t.len() && is_digit(t[b + 9 as int])) {
                            bad_digit(t, b + 9, ".ffffff", r)
                        } else {
                            let k = digit_run_end(t, b + 9);
                            Scan::Done {
                                value: Time {
                                    hour: h as u8,
                                    minute: m as u8,
                                    second: s as u8,
                                    nanosecond: nanoseconds(t.subrange(b + 9 as int, k as int)) as u32,
                                },
                                end: k,
                            }
                        },
                    }
                },
            }
        },
    }
}

/// The offset `Z`, `+HH:mm` or `-HH:mm` at `t[k]`, if one stands there.
pub open spec fn scan_offset(t: Seq<char>, k: nat, r: UnallowedCharacterReason) -> Scan<Option<i32>> {
    if has_separator(t, k, 'Z') {
        Scan::Done { value: Some(0i32), end: k + 1 }
    } else if has_separator(t, k, '+') || has_separator(t, k, '-') {
        match read_digits(t, k + 1, 2, 0, "HH", r) {
            Scan::Failed { error, offset, end } => Scan::Failed { error, offset, end },
            Scan::Done { value: h, .. } => if !has_separator(t, k + 3, ':') {
                bad_separator(t, k + 3, "mm", r)
            } else {
                match read_digits(t, k + 4, 2, 0, "mm", r) {
                    Scan::Failed { error, offset, end } => Scan::Failed { error, offset, end },
                    Scan::Done { value: m, .. } => {
                        let magnitude: int = ((h * 60 + m) * 60) as int;
                        let seconds = if t[k as int] == '-' { -magnitude } else { magnitude };
                        if is_valid_offset(seconds) {
                            Scan::Done { value: Some(seconds as i32), end: k + 6 }
                        } else {
                            fail(FormatError::Unknown("offset out of range"), k + 5, t)
                        }
                    },
                }
            },
        }
    } else {
        Scan::Done { value: None, end: k }
    }
}

/// Two digits and a colon: the start of a time.
pub open spec fn is_time_start(t: Seq<char>) -> bool {
    t.len() > 2 && is_digit(t[0]) && is_digit(t[1]) && t[2] == ':'
}

/// What follows a valid date `d` at `t[10]`: a time after `T`, or after a
/// space where a digit comes next, then perhaps an offset; else the date alone.
pub open spec fn scan_after_date(t: Seq<char>, d: Date) -> Scan<DateTimeType> {
    if has_separator(t, 10, 'T') || (has_separator(t, 10, ' ') && 11 < t.len() && is_digit(t[11])) {
        match scan_time_fields(t, 11, UnallowedCharacterReason::InTypeDateTime) {
            Scan::Failed { error, offset, end } => Scan::Failed { error, offset, end },
            Scan::Done { value: tm, end: k } => if !is_valid_time(tm) {
                fail(FormatError::Unknown("time out of range"), (k - 1) as nat, t)
            } else {
                match scan_offset(t, k, UnallowedCharacterReason::InTypeDateTime) {
                    Scan::Failed { error, offset, end } => Scan::Failed { error, offset, end },
                    Scan::Done { value: off, end } => Scan::Done {
                        value: DateTimeType::DateTime(d, tm, off),
                        end,
                    },
                }
            },
        }
    } else {
        Scan::Done { value: DateTimeType::Date(d), end: 10 }
    }
}

/// The character that reading an offset handed out last: the last of the
/// offset, or the one after where none stands, or the one at an error.
pub open spec fn offset_last_read(t: Seq<char>, scan: Scan<Option<i32>>) -> Option<char> {
    match scan {
        Scan::Done { value, end } => if value is Some {
            char_at(t, (end - 1) as nat)
        } else {
            char_at(t, end)
        },
        Scan::Failed { offset, .. } => char_at(t, offset),
    }
}

/// The character that reading a time from `t[b]` on, checking it and reading
/// its offset handed out last.
pub open spec fn time_last_read(t: Seq<char>, b: nat, r: UnallowedCharacterReason) -> Option<char> {
    match scan_time_fields(t, b, r) {
        Scan::Failed { offset, .. } => char_at(t, offset),
        Scan::Done { value: tm, end } => if !is_valid_time(tm) {
            char_at(t, end)
        } else {
            offset_last_read(t, scan_offset(t, end, r))
        },
    }
}

/// The character that reading what follows the date `d` handed out last.
pub open spec fn after_date_last_read(t: Seq<char>, d: Date) -> Option<char> {
    if has_separator(t, 10, 'T') || (has_separator(t, 10, ' ') && 11 < t.len() && is_digit(t[11])) {
        time_last_read(t, 11, UnallowedCharacterReason::InTypeDateTime)
    } else if has_separator(t, 10, ' ') {
        char_at(t, 11)
    } else {
        char_at(t, 10)
    }
}

/// The character that reading the date or time value `t` handed out last.
pub open spec fn datetime_last_read(t: Seq<char>) -> Option<char> {
    if is_time_start(t) {
        time_last_read(t, 0, UnallowedCharacterReason::InTypeTime)
    } else {
        match scan_date_fields(t) {
            Scan::Failed { offset, .. } => char_at(t, offset),
            Scan::Done { value: d, .. } => if !is_valid_date(d) {
                char_at(t, 9)
            } else {
                after_date_last_read(t, d)
            },
        }
    }
}

/// A date, a time or a date and time that begins at `t[0]`.
pub open spec fn scan_datetime(t: Seq<char>) -> Scan<DateTimeType> {
    if is_time_start(t) {
        match scan_time_fields(t, 0, UnallowedCharacterReason::InTypeTime) {
            Scan::Failed { error, offset, end } => Scan::Failed { error, offset, end },
            Scan::Done { value: tm, end } => if !is_valid_time(tm) {
                fail(FormatError::Unknown("time out of range"), (end - 1) as nat, t)
            } else {
                match scan_offset(t, end, UnallowedCharacterReason::InTypeTime) {
                    Scan::Failed { error, offset, end } => Scan::Failed { error, offset, end },
                    Scan::Done { value: off, end } => Scan::Done { value: DateTimeType::Time(tm, off), end },
                }
            },
        }
    } else {
        match scan_date_fields(t) {
            Scan::Failed { error, offset, end } => Scan::Failed { error, offset, end },
            Scan::Done { value: d, .. } => if !is_valid_date(d) {
                fail(FormatError::Unknown("date out of range"), 9, t)
            } else {
                scan_after_date(t, d)
            },
        }
    }
}

/// The separator `sep` at `t[p]`, before the component `pattern`.
pub open spec fn scan_separator(
    t: Seq<char>,
    p: nat,
    sep: char,
    pattern: &'static str,
    reason: UnallowedCharacterReason,
) -> Scan<()> {
    if has_separator(t, p, sep) {
        Scan::Done { value: (), end: p + 1 }
    } else {
        bad_separator(t, p, pattern, reason)
    }
}

/// `r` is the number that `scan` reads, or its error.
pub open spec fn yields_number(r: Result<u64, ParserError>, scan: Scan<nat>) -> bool {
    match scan {
        Scan::Done { value, .. } => r matches Ok(v) && v as nat == value,
        Scan::Failed { error, offset, .. } => r matches Err(e) && e.error == error && e.offset as nat == offset,
    }
}

pub proof fn lemma_pow10_grows(a: nat, b: nat)
    requires
        a <= b,
    ensures
        pow10(a) <= pow10(b),
    decreases b,
{
    if a < b {
        lemma_pow10_grows(a, (b - 1) as nat);
    }
}

proof fn lemma_pow10_nine()
    ensures
        pow10(9) == 1_000_000_000,
{
    reveal_with_fuel(pow10, 10);
}

/// Where `t.skip(p)` is left to read, the error `bad_digit` describes is the
/// one that `c`, read there, shows.
fn digit_error<T>(
    c: Option<char>,
    Ghost(t): Ghost<Seq<char>>,
    p: usize,
    pattern: &'static str,
    reason: UnallowedCharacterReason,
) -> (r: Result<T, ParserError>)
    requires
        p <= t.len(),
        c is None ==> p == t.len(),
        c matches Some(ch) ==> p < t.len() && t[p as int] == ch && !is_digit(ch),
    ensures
        yields(r, bad_digit(t, p as nat, pattern, reason)),
        offset_within(r, t.len()),
{
    match c {
        Some(ch) => if !is_boundary_char(ch) {
            ParserError::from(FormatError::UnallowedCharacter(ch, reason), p)
        } else {
            ParserError::from(FormatError::ExpectedSequence(pattern), p)
        },
        None => ParserError::from(FormatError::ExpectedSequence(pattern), p),
    }
}

pub fn is_boundary_char(c: char) -> (r: bool)
    ensures
        r == is_datetime_boundary(c),
{
    c == '-' || c == ':' || c == '.' || c == 'T' || c == 'Z' || c == '+' || is_terminator_char(c)
}

/// Reads the `n` digits of the component `pattern` from `t[p]` on.
fn read_field<S: Supplier>(
    input: &mut S,
    Ghost(t): Ghost<Seq<char>>,
    p: usize,
    n: usize,
    pattern: &'static str,
    reason: UnallowedCharacterReason,
) -> (r: Result<u64, ParserError>)
    requires
        old(input).rest() == t.skip(p as int),
        p <= t.len() <= usize::MAX,
        1 <= n <= 4,
    ensures
        yields_number(r, read_digits(t, p as nat, n as nat, 0, pattern, reason)),
        final(input).last_spec() == last_read_closed(t, read_digits(t, p as nat, n as nat, 0, pattern, reason)),
        offset_within(r, t.len()),
        r is Ok ==> p + n <= t.len(),
        r matches Ok(v) ==> v < pow10(n as nat) && read_digits(t, p as nat, n as nat, 0, pattern, reason)
            == (Scan::Done { value: v as nat, end: (p + n) as nat }),
        final(input).rest() == t.skip(
            scan_end(read_digits(t, p as nat, n as nat, 0, pattern, reason)) as int,
        ),
        scan_end(read_digits(t, p as nat, n as nat, 0, pattern, reason)) <= t.len(),
{
    let ghost target = read_digits(t, p as nat, n as nat, 0, pattern, reason);
    let mut acc: u64 = 0;
    let mut k: usize = 0;
    while k < n
        invariant
            k <= n <= 4,
            p + k <= t.len() <= usize::MAX,
            input.rest() == t.skip(p + k),
            acc < pow10(k as nat),
            k > 0 ==> input.last_spec() == Some(t[p + k - 1]),
            read_digits(t, (p + k) as nat, (n - k) as nat, acc as nat, pattern, reason) == target,
            target == read_digits(t, p as nat, n as nat, 0, pattern, reason),
        decreases n - k,
    {
        let c = input.get();
        match c {
            Some(ch) => {
                proof {
                    lemma_skip_next(t, p + k);
                }
                if !is_digit_char(ch) {
                    return digit_error(c, Ghost(t), p + k, pattern, reason);
                }
                proof {
                    lemma_pow10_grows(k as nat, 4);
                    reveal_with_fuel(pow10, 5);
                }
                acc = acc * 10 + (ch as u32 - '0' as u32) as u64;
                k = k + 1;
            },
            None => {
                proof {
                    assert(input.rest() =~= t.skip(t.len() as int));
                }
                return digit_error(c, Ghost(t), p + k, pattern, reason);
            },
        }
    }
    Ok(acc)
}

/// Reads the separator `sep` at `t[p]`.
fn read_separator<S: Supplier>(
    input: &mut S,
    Ghost(t): Ghost<Seq<char>>,
    p: usize,
    sep: char,
    pattern: &'static str,
    reason: UnallowedCharacterReason,
) -> (r: Result<(), ParserError>)
    requires
        old(input).rest() == t.skip(p as int),
        p <= t.len() <= usize::MAX,
    ensures
        yields(r, scan_separator(t, p as nat, sep, pattern, reason)),
        final(input).last_spec() == last_read_closed(t, scan_separator(t, p as nat, sep, pattern, reason)),
        offset_within(r, t.len()),
        final(input).rest() == t.skip(
            scan_end(scan_separator(t, p as nat, sep, pattern, reason)) as int,
        ),
        scan_end(scan_separator(t, p as nat, sep, pattern, reason)) <= t.len(),
{
    match input.get() {
        Some(c) => {
            proof {
                lemma_skip_next(t, p as int);
            }
            if c == sep {
                Ok(())
            } else if !is_boundary_char(c) && !is_digit_char(c) {
                ParserError::from(FormatError::UnallowedCharacter(c, reason), p)
            } else {
                ParserError::from(FormatError::ExpectedSequence(pattern), p)
            }
        },
        None => {
            proof {
                assert(input.rest() =~= t.skip(t.len() as int));
            }
            ParserError::from(FormatError::ExpectedSequence(pattern), p)
        },
    }
}

pub proof fn lemma_digits_bound(ds: Seq<char>)
    requires
        all_digits(ds),
    ensures
        digits_value(ds) < pow10(ds.len()),
    decreases ds.len(),
{
    if ds.len() > 0 {
        let front = ds.drop_last();
        assert forall|k: int| 0 <= k < front.len() implies is_digit(#[trigger] front[k]) by {
            assert(front[k] == ds[k]);
        }
        lemma_digits_bound(front);
        assert(is_digit(ds[ds.len() - 1]));
    }
}

/// Zeros written after digits multiply their value by ten each.
pub proof fn lemma_trailing_zeros(x: Seq<char>, m: nat)
    ensures
        digits_value(x + zeros(m)) == digits_value(x) * pow10(m),
    decreases m,
{
    if m == 0 {
        assert(x + zeros(m) =~= x);
        assert(pow10(0) == 1);
    } else {
        lemma_trailing_zeros(x, (m - 1) as nat);
        let shorter = x + zeros((m - 1) as nat);
        let longer = x + zeros(m);
        assert(longer.drop_last() =~= shorter);
        assert(longer.last() == '0');
        assert(digit_value('0') == 0);
        let v = digits_value(x);
        let p = pow10((m - 1) as nat);
        assert(digits_value(longer) == digits_value(shorter) * 10 + digit_value('0'));
        assert(pow10(m) == 10 * p);
        assert(v * p * 10 == v * (10 * p)) by (nonlinear_arith);
    }
}

/// One more fractional digit: its value counts while fewer than nine were read.
proof fn lemma_fraction_step(ds: Seq<char>, ch: char)
    requires
        all_digits(ds),
        is_digit(ch),
    ensures
        all_digits(ds.push(ch)),
        ds.len() < 9 ==> digits_value(ds.push(ch)) == digits_value(ds) * 10 + digit_value(ch),
        ds.len() < 9 ==> digits_value(ds) < 100_000_000,
        ds.len() >= 9 ==> ds.push(ch).take(9) == ds.take(9),
        ds.len() == 8 ==> ds.push(ch).take(9) == ds.push(ch),
{
    let next = ds.push(ch);
    assert forall|k: int| 0 <= k < next.len() implies is_digit(#[trigger] next[k]) by {
        if k < ds.len() {
            assert(next[k] == ds[k]);
        }
    }
    assert(next.drop_last() =~= ds);
    if ds.len() < 9 {
        lemma_digits_bound(ds);
        lemma_pow10_grows(ds.len(), 8);
        reveal_with_fuel(pow10, 10);
        if ds.len() == 8 {
            assert(next.take(9) =~= next);
        }
    } else {
        assert(next.take(9) =~= ds.take(9));
    }
}

/// Nine digits are worth less than a billion.
proof fn lemma_nine_digits(ds: Seq<char>)
    requires
        all_digits(ds),
        ds.len() <= 9,
    ensures
        digits_value(ds) < 1_000_000_000,
{
    lemma_digits_bound(ds);
    lemma_pow10_grows(ds.len(), 9);
    lemma_pow10_nine();
}

/// The nanoseconds of the fractional digits `ds`, of which `count` were kept.
proof fn lemma_nanoseconds(ds: Seq<char>, kept: Seq<char>)
    requires
        all_digits(ds),
        kept == (if ds.len() < 9 { ds } else { ds.take(9) }),
    ensures
        nanoseconds(ds) == digits_value(kept) * pow10((9 - kept.len()) as nat),
        all_digits(kept),
        kept.len() <= 9,
{
    assert forall|k: int| 0 <= k < kept.len() implies is_digit(#[trigger] kept[k]) by {
        assert(kept[k] == ds[k]);
    }
    lemma_trailing_zeros(kept, (9 - kept.len()) as nat);
    if ds.len() >= 9 {
        assert(kept + zeros(0) =~= kept);
        assert(pow10(0) == 1);
    }
}

/// Reads the fractional digits that begin at `t[p]`, then leaves the first
/// character after them to be read.
#[verifier::rlimit(60)]
fn read_fraction<S: Supplier>(
    input: &mut S,
    Ghost(t): Ghost<Seq<char>>,
    p: usize,
) -> (r: (u32, usize))
    requires
        old(input).rest() == t.skip(p as int),
        p < t.len() <= usize::MAX,
        is_digit(t[p as int]),
    ensures
        r.1 == digit_run_end(t, p as nat),
        p < r.1 <= t.len(),
        final(input).last_spec() == char_at(t, r.1 as nat),
        r.0 as nat == nanoseconds(t.subrange(p as int, digit_run_end(t, p as nat) as int)),
        final(input).rest() == t.skip(digit_run_end(t, p as nat) as int),
{
    let mut i: usize = p;
    let mut nanos: u64 = 0;
    proof {
        assert(t.subrange(p as int, p as int) =~= Seq::<char>::empty());
    }
    loop
        invariant
            p <= i <= t.len() <= usize::MAX,
            input.rest() == t.skip(i as int),
            all_digits(t.subrange(p as int, i as int)),
            i - p < 9 ==> nanos as nat == digits_value(t.subrange(p as int, i as int)),
            i - p >= 9 ==> nanos as nat == digits_value(t.subrange(p as int, i as int).take(9)),
            digit_run_end(t, i as nat) == digit_run_end(t, p as nat),
        ensures
            p <= i <= t.len(),
            input.rest() == t.skip(i as int),
            all_digits(t.subrange(p as int, i as int)),
            i - p < 9 ==> nanos as nat == digits_value(t.subrange(p as int, i as int)),
            i - p >= 9 ==> nanos as nat == digits_value(t.subrange(p as int, i as int).take(9)),
            digit_run_end(t, p as nat) == i,
            input.last_spec() == char_at(t, i as nat),
        decreases t.len() - i,
    {
        let ghost ds = t.subrange(p as int, i as int);
        let c = input.get();
        let ch = match c {
            Some(ch) => ch,
            None => {
                proof {
                    assert(input.rest() =~= t.skip(t.len() as int));
                }
                break;
            },
        };
        proof {
            lemma_skip_next(t, i as int);
        }
        if !is_digit_char(ch) {
            input.unread(ch);
            proof {
                lemma_skip_back(t, i as int);
            }
            break;
        }
        proof {
            assert(t.subrange(p as int, i + 1) =~= ds.push(ch));
            lemma_fraction_step(ds, ch);
        }
        if i - p < 9 {
            nanos = nanos * 10 + (ch as u32 - '0' as u32) as u64;
        }
        i = i + 1;
    }
    let ghost ds = t.subrange(p as int, i as int);
    let ghost kept = if ds.len() < 9 { ds } else { ds.take(9) };
    proof {
        lemma_nanoseconds(ds, kept);
        lemma_nine_digits(kept);
    }
    let mut filled: usize = if i - p < 9 { i - p } else { 9 };
    proof {
        assert(pow10(0) == 1);
        assert(digits_value(kept) * 1 == digits_value(kept));
    }
    while filled < 9
        invariant
            kept.len() <= filled <= 9,
            all_digits(kept),
            nanos as nat == digits_value(kept) * pow10((filled - kept.len()) as nat),
        decreases 9 - filled,
    {
        proof {
            lemma_trailing_zeros(kept, (filled - kept.len()) as nat);
            lemma_trailing_zeros(kept, (filled + 1 - kept.len()) as nat);
            let all = kept + zeros((filled - kept.len()) as nat);
            assert forall|k: int| 0 <= k < all.len() implies is_digit(#[trigger] all[k]) by {
                if k < kept.len() {
                    assert(all[k] == kept[k]);
                }
            }
            lemma_nine_digits(all);
            let v = digits_value(kept);
            let q = pow10((filled - kept.len()) as nat);
            assert(pow10((filled + 1 - kept.len()) as nat) == 10 * q);
            assert(v * q * 10 == v * (10 * q)) by (nonlinear_arith);
        }
        nanos = nanos * 10;
        filled = filled + 1;
    }
    proof {
        lemma_trailing_zeros(kept, (9 - kept.len()) as nat);
        let all = kept + zeros((9 - kept.len()) as nat);
        assert forall|k: int| 0 <= k < all.len() implies is_digit(#[trigger] all[k]) by {
            if k < kept.len() {
                assert(all[k] == kept[k]);
            }
        }
        lemma_nine_digits(all);
    }
    proof {
        lemma_run_end_bounds(t, (p + 1) as nat);
    }
    (nanos as u32, i)
}

/// Reads the time `HH:mm:ss[.fff…]` from `t[b]` on, and says where it ended.
fn read_time<S: Supplier>(
    input: &mut S,
    Ghost(t): Ghost<Seq<char>>,
    b: usize,
    reason: UnallowedCharacterReason,
) -> (r: Result<(Time, usize), ParserError>)
    requires
        old(input).rest() == t.skip(b as int),
        b <= t.len() <= usize::MAX,
    ensures
        yields_until(r, scan_time_fields(t, b as nat, reason)),
        final(input).last_spec() == last_read_ahead(t, scan_time_fields(t, b as nat, reason)),
        offset_within(r, t.len()),
        r matches Ok(v) ==> b + 8 <= v.1 <= t.len(),
        final(input).rest() == t.skip(scan_end(scan_time_fields(t, b as nat, reason)) as int),
        scan_end(scan_time_fields(t, b as nat, reason)) <= t.len(),
{
    proof {
        reveal_with_fuel(pow10, 3);
    }
    let h = match read_field(input, Ghost(t), b, 2, "HH", reason) {
        Ok(v) => v,
        Err(e) => {
            return Err(e);
        },
    };
    match read_separator(input, Ghost(t), b + 2, ':', "mm", reason) {
        Ok(()) => {},
        Err(e) => {
            return Err(e);
        },
    }
    let m = match read_field(input, Ghost(t), b + 3, 2, "mm", reason) {
        Ok(v) => v,
        Err(e) => {
            return Err(e);
        },
    };
    match read_separator(input, Ghost(t), b + 5, ':', "ss", reason) {
        Ok(()) => {},
        Err(e) => {
            return Err(e);
        },
    }
    let s = match read_field(input, Ghost(t), b + 6, 2, "ss", reason) {
        Ok(v) => v,
        Err(e) => {
            return Err(e);
        },
    };
    let whole = Time { hour: h as u8, minute: m as u8, second: s as u8, nanosecond: 0 };
    let p = b + 8;
    match input.get() {
        None => {
            proof {
                assert(input.rest() =~= t.skip(t.len() as int));
            }
            Ok((whole, p))
        },
        Some(c) => {
            proof {
                lemma_skip_next(t, p as int);
            }
            if c != '.' {
                input.unread(c);
                proof {
                    lemma_skip_back(t, p as int);
                }
                return Ok((whole, p));
            }
            let d = input.get();
            match d {
                Some(dc) => {
                    proof {
                        lemma_skip_next(t, p + 1);
                    }
                    if !is_digit_char(dc) {
                        return digit_error(d, Ghost(t), p + 1, ".ffffff", reason);
                    }
                    input.unread(dc);
                    proof {
                        lemma_skip_back(t, p + 1);
                        assert(input.rest() == t.skip(p + 1));
                        assert(is_digit(t[p + 1]));
                    }
                },
                None => {
                    proof {
                        assert(input.rest() =~= t.skip(t.len() as int));
                    }
                    return digit_error(d, Ghost(t), p + 1, ".ffffff", reason);
                },
            }
            let (nanos, end) = read_fraction(input, Ghost(t), p + 1);
            Ok((Time { hour: h as u8, minute: m as u8, second: s as u8, nanosecond: nanos }, end))
        },
    }
}

pub proof fn lemma_run_end_bounds(t: Seq<char>, p: nat)
    requires
        p <= t.len(),
    ensures
        p <= digit_run_end(t, p) <= t.len(),
    decreases t.len() - p,
{
    if p < t.len() && is_digit(t[p as int]) {
        lemma_run_end_bounds(t, p + 1);
    }
}

/// Reads the offset from UTC that may stand at `t[k]`.
fn read_offset<S: Supplier>(
    input: &mut S,
    Ghost(t): Ghost<Seq<char>>,
    k: usize,
    reason: UnallowedCharacterReason,
) -> (r: Result<(Option<i32>, usize), ParserError>)
    requires
        old(input).rest() == t.skip(k as int),
        k <= t.len() <= usize::MAX,
    ensures
        yields_until(r, scan_offset(t, k as nat, reason)),
        final(input).last_spec() == offset_last_read(t, scan_offset(t, k as nat, reason)),
        offset_within(r, t.len()),
        final(input).rest() == t.skip(scan_end(scan_offset(t, k as nat, reason)) as int),
        scan_end(scan_offset(t, k as nat, reason)) <= t.len(),
{
    proof {
        reveal_with_fuel(pow10, 3);
    }
    let c = match input.get() {
        None => {
            proof {
                assert(input.rest() =~= t.skip(t.len() as int));
            }
            return Ok((None, k));
        },
        Some(c) => c,
    };
    proof {
        lemma_skip_next(t, k as int);
    }
    if c == 'Z' {
        return Ok((Some(0), k + 1));
    }
    if c != '+' && c != '-' {
        input.unread(c);
        proof {
            lemma_skip_back(t, k as int);
        }
        return Ok((None, k));
    }
    let h = match read_field(input, Ghost(t), k + 1, 2, "HH", reason) {
        Ok(v) => v,
        Err(e) => {
            return Err(e);
        },
    };
    match read_separator(input, Ghost(t), k + 3, ':', "mm", reason) {
        Ok(()) => {},
        Err(e) => {
            return Err(e);
        },
    }
    let m = match read_field(input, Ghost(t), k + 4, 2, "mm", reason) {
        Ok(v) => v,
        Err(e) => {
            return Err(e);
        },
    };
    let magnitude = ((h * 60 + m) * 60) as i32;
    let seconds = if c == '-' { -magnitude } else { magnitude };
    if offset_exists(seconds) {
        Ok((Some(seconds), k + 6))
    } else {
        ParserError::from(FormatError::Unknown("offset out of range"), k + 5)
    }
}

/// Whether `t`, of which `first` is the first character and the rest is
/// left to read, begins with a time; nothing is taken from the input.
fn starts_with_time<S: Supplier>(
    first: char,
    input: &mut S,
    Ghost(t): Ghost<Seq<char>>,
) -> (r: bool)
    requires
        1 <= t.len() <= usize::MAX,
        t[0] == first,
        old(input).rest() == t.skip(1),
    ensures
        r == is_time_start(t),
        final(input).rest() == t,
{
    let c1 = input.get();
    let mut is_time = false;
    match c1 {
        Some(a) => {
            proof {
                lemma_skip_next(t, 1);
            }
            let c2 = input.get();
            match c2 {
                Some(b) => {
                    proof {
                        lemma_skip_next(t, 2);
                    }
                    is_time = is_digit_char(first) && is_digit_char(a) && b == ':';
                    input.unread(b);
                    proof {
                        lemma_skip_back(t, 2);
                    }
                },
                None => {
                    proof {
                        assert(input.rest() =~= t.skip(2));
                    }
                },
            }
            input.unread(a);
            proof {
                lemma_skip_back(t, 1);
            }
        },
        None => {
            proof {
                assert(input.rest() =~= t.skip(1));
            }
        },
    }
    input.unread(first);
    proof {
        lemma_skip_back(t, 0);
        assert(t.skip(0) =~= t);
    }
    is_time
}

/// Reads the date `YYYY-MM-DD` at the start of `t`.
fn read_date<S: Supplier>(
    input: &mut S,
    Ghost(t): Ghost<Seq<char>>,
) -> (r: Result<Date, ParserError>)
    requires
        old(input).rest() == t,
        t.len() <= usize::MAX,
    ensures
        yields(r, scan_date_fields(t)),
        final(input).last_spec() == last_read_closed(t, scan_date_fields(t)),
        offset_within(r, t.len()),
        r is Ok ==> 10 <= t.len(),
        final(input).rest() == t.skip(scan_end(scan_date_fields(t)) as int),
        scan_end(scan_date_fields(t)) <= t.len(),
{
    proof {
        assert(t.skip(0) =~= t);
        reveal_with_fuel(pow10, 5);
    }
    let reason = UnallowedCharacterReason::InTypeDate;
    let y = match read_field(input, Ghost(t), 0, 4, "YYYY", reason) {
        Ok(v) => v,
        Err(e) => {
            return Err(e);
        },
    };
    match read_separator(input, Ghost(t), 4, '-', "MM", reason) {
        Ok(()) => {},
        Err(e) => {
            return Err(e);
        },
    }
    let m = match read_field(input, Ghost(t), 5, 2, "MM", reason) {
        Ok(v) => v,
        Err(e) => {
            return Err(e);
        },
    };
    match read_separator(input, Ghost(t), 7, '-', "DD", reason) {
        Ok(()) => {},
        Err(e) => {
            return Err(e);
        },
    }
    let d = match read_field(input, Ghost(t), 8, 2, "DD", reason) {
        Ok(v) => v,
        Err(e) => {
            return Err(e);
        },
    };
    Ok(Date { year: y as u16, month: m as u8, day: d as u8 })
}

/// Reads what follows a date at `t[10]`: a time after `T`, or after a space
/// where a digit comes next, with its offset; else nothing.
fn read_after_date<S: Supplier>(
    input: &mut S,
    Ghost(t): Ghost<Seq<char>>,
    date: Date,
) -> (r: Result<(DateTimeType, usize), ParserError>)
    requires
        old(input).rest() == t.skip(10),
        10 <= t.len() <= usize::MAX,
        is_valid_date(date),
    ensures
        yields_until(r, scan_after_date(t, date)),
        final(input).last_spec() == after_date_last_read(t, date),
        offset_within(r, t.len()),
        final(input).rest() == t.skip(scan_end(scan_after_date(t, date)) as int),
        scan_end(scan_after_date(t, date)) <= t.len(),
{
    let c = match input.get() {
        None => {
            proof {
                assert(input.rest() =~= t.skip(t.len() as int));
            }
            return Ok((DateTimeType::Date(date), 10));
        },
        Some(c) => c,
    };
    proof {
        lemma_skip_next(t, 10);
    }
    if c == ' ' {
        match input.get() {
            None => {
                input.unread(c);
                proof {
                    assert(input.rest() =~= t.skip(10));
                }
                return Ok((DateTimeType::Date(date), 10));
            },
            Some(c2) => {
                proof {
                    lemma_skip_next(t, 11);
                }
                input.unread(c2);
                proof {
                    lemma_skip_back(t, 11);
                }
                if !is_digit_char(c2) {
                    input.unread(c);
                    proof {
                        lemma_skip_back(t, 10);
                    }
                    return Ok((DateTimeType::Date(date), 10));
                }
            },
        }
    } else if c != 'T' {
        input.unread(c);
        proof {
            lemma_skip_back(t, 10);
        }
        return Ok((DateTimeType::Date(date), 10));
    }
    assert(input.rest() == t.skip(11));
    let (tm, k) = match read_time(input, Ghost(t), 11, UnallowedCharacterReason::InTypeDateTime) {
        Ok(v) => v,
        Err(e) => {
            return Err(e);
        },
    };
    if !time_exists(tm) {
        return ParserError::from(FormatError::Unknown("time out of range"), k - 1);
    }
    let (off, end) = match read_offset(input, Ghost(t), k, UnallowedCharacterReason::InTypeDateTime) {
        Ok(v) => v,
        Err(e) => {
            return Err(e);
        },
    };
    Ok((DateTimeType::DateTime(date, tm, off), end))
}

/// The scanner of date and time values.
pub struct DateTime;

impl DateTime {
    /// Reads a date, a time, or a date and time, whose first character
    /// `first` has just been read, then the rest of it from `input`, with the number of characters that it
    /// took. What follows the value is left to be read.
    pub fn parse<S: Supplier>(first: char, input: &mut S) -> (r: Result<
        (DateTimeType, usize),
        ParserError,
    >)
        requires
            old(input).rest().len() < usize::MAX,
        ensures
            yields_until(r, scan_datetime(seq![first] + old(input).rest())),
            final(input).last_spec() == datetime_last_read(seq![first] + old(input).rest()),
            offset_within(r, old(input).rest().len() + 1),
            end_within(r, old(input).rest().len() + 1),
            final(input).rest() == (seq![first] + old(input).rest()).skip(
                scan_end(scan_datetime(seq![first] + old(input).rest())) as int,
            ),
            scan_end(scan_datetime(seq![first] + old(input).rest())) <= (seq![first] + old(input).rest()).len(),
    {
        let ghost t = seq![first] + input.rest();
        proof {
            assert(t.skip(1) =~= input.rest());
            assert(t.skip(0) =~= t);
        }
        if starts_with_time(first, input, Ghost(t)) {
            let (tm, end) = match read_time(input, Ghost(t), 0, UnallowedCharacterReason::InTypeTime) {
                Ok(v) => v,
                Err(e) => {
                    return Err(e);
                },
            };
            if !time_exists(tm) {
                return ParserError::from(FormatError::Unknown("time out of range"), end - 1);
            }
            return match read_offset(input, Ghost(t), end, UnallowedCharacterReason::InTypeTime) {
                Ok((off, e)) => Ok((DateTimeType::Time(tm, off), e)),
                Err(e) => Err(e),
            };
        }
        let date = match read_date(input, Ghost(t)) {
            Ok(d) => d,
            Err(e) => {
                return Err(e);
            },
        };
        if !date_exists(date) {
            return ParserError::from(FormatError::Unknown("date out of range"), 9);
        }
        read_after_date(input, Ghost(t), date)
    }
}

impl TypeParser<DateTimeType> for DateTime {
    open spec fn scan(t: Seq<char>) -> Scan<DateTimeType> {
        scan_datetime(t)
    }

    fn parse<S: Supplier>(first: char, input: &mut S) -> (r: Result<(DateTimeType, usize), ParserError>) {
        DateTime::parse(first, input)
    }
}

} // verus!
