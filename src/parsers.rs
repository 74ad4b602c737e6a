use vstd::prelude::*;
use crate::boolean::{scan_boolean, Boolean};
use crate::chars::{is_digit, is_digit_char, is_linebreak, CharExt};
use crate::common::{
    check_comment_or_whitespaces, check_trailing_counting, lemma_trailing_end, lemma_skip_blanks_ge, scan_trailing, skip_blanks, skip_blanks_counting,
};
use crate::keys::{lemma_segment_end, lemma_skip_blanks_shift, read_segment, scan_key_segment, Key};
use crate::datetime::{is_time_start, scan_datetime, DateTime, DateTimeType};
use crate::errors::{FormatError, ParserError};
use crate::number::{scan_number, Number, NumberModel, NumberType};
use crate::reader::Supplier;
use crate::scan::{fail, lemma_skip_back, lemma_skip_next, lemma_skip_skip, reads, scan_end, Scan};
use crate::string::{scan_string, String};

verus! {

/// A scalar value.
#[derive(Debug, Clone, PartialEq)]
pub enum Value {
    Number(NumberType),
    Boolean(bool),
    String(std::string::String),
    DateTime(DateTimeType),
}

/// What a [`Value`] stands for.
pub enum ValueModel {
    Number(NumberModel),
    Boolean(bool),
    String(Seq<char>),
    DateTime(DateTimeType),
}

impl View for Value {
    type V = ValueModel;

    open spec fn view(&self) -> ValueModel {
        match self {
            Value::Number(n) => ValueModel::Number(n@),
            Value::Boolean(b) => ValueModel::Boolean(*b),
            Value::String(s) => ValueModel::String(s@),
            Value::DateTime(d) => ValueModel::DateTime(*d),
        }
    }
}

/// `scan` with its value passed through `f`.
pub open spec fn lift<A, B>(scan: Scan<A>, f: spec_fn(A) -> B) -> Scan<B> {
    match scan {
        Scan::Done { value, end } => Scan::Done { value: f(value), end },
        Scan::Failed { error, offset, end } => Scan::Failed { error, offset, end },
    }
}

/// `scan` of characters that stand `k` further on.
pub open spec fn shift<A>(scan: Scan<A>, k: nat) -> Scan<A> {
    match scan {
        Scan::Done { value, end } => Scan::Done { value, end: end + k },
        Scan::Failed { error, offset, end } => Scan::Failed { error, offset: offset + k, end: end + k },
    }
}

/// Four digits and a dash: the start of a date.
pub open spec fn is_date_start(t: Seq<char>) -> bool {
    t.len() > 4 && is_digit(t[0]) && is_digit(t[1]) && is_digit(t[2]) && is_digit(t[3]) && t[4]
        == '-'
}

/// The value that begins at `t[0]`, chosen by its first characters: a quote
/// opens a string, `t` or `f` a boolean, a sign or a point a number, and a
/// digit a date or a time where one begins, else a number.
pub open spec fn scan_token(t: Seq<char>) -> Scan<ValueModel> {
    let c = t[0];
    if c == '"' || c == '\'' {
        lift(scan_string(t), |v: Seq<char>| ValueModel::String(v))
    } else if c == 't' || c == 'f' {
        lift(scan_boolean(t), |b: bool| ValueModel::Boolean(b))
    } else if c == '+' || c == '-' || c == '.' {
        lift(scan_number(t), |n: NumberModel| ValueModel::Number(n))
    } else if is_digit(c) && (is_time_start(t) || is_date_start(t)) {
        lift(scan_datetime(t), |d: DateTimeType| ValueModel::DateTime(d))
    } else if is_digit(c) {
        lift(scan_number(t), |n: NumberModel| ValueModel::Number(n))
    } else {
        fail(FormatError::EmptyValue, 0, t)
    }
}

/// A value on the line `s`: blanks, the value, then blanks and perhaps a
/// comment up to the end of the line.
pub open spec fn scan_value(s: Seq<char>) -> Scan<ValueModel> {
    let k = skip_blanks(s, 0);
    if k >= s.len() || is_linebreak(s[k as int]) {
        fail(FormatError::EmptyValue, k, s)
    } else {
        match shift(scan_token(s.skip(k as int)), k) {
            Scan::Failed { error, offset, end } => Scan::Failed { error, offset, end },
            Scan::Done { value, end } => match scan_trailing(s.skip(end as int), false) {
                Scan::Failed { error, offset, end: e } => Scan::Failed {
                    error,
                    offset: offset + end,
                    end: e + end,
                },
                Scan::Done { end: e, .. } => Scan::Done { value, end: e + end },
            },
        }
    }
}

/// The parser of the value part of an entry.
pub struct ValueParser;

impl ValueParser {
    /// Reads a value, and the rest of its line, from `input`.
    pub fn parse<S: Supplier>(input: &mut S) -> (r: Result<Value, ParserError>)
        requires
            old(input).rest().len() < usize::MAX,
        ensures
            reads(r, scan_value(old(input).rest())),
            r matches Err(e) ==> e.offset as nat <= old(input).rest().len(),
            scan_end(scan_value(old(input).rest())) <= old(input).rest().len(),
            final(input).rest() == old(input).rest().skip(scan_end(scan_value(old(input).rest())) as int),
    {
        let ghost s = input.rest();
        let (first, k) = skip_blanks_counting(input, true);
        let c = match first {
            None => {
                proof {
                    if k == s.len() {
                        assert(input.rest() =~= s.skip(s.len() as int));
                    }
                }
                return ParserError::from(FormatError::EmptyValue, k);
            },
            Some(c) => c,
        };
        let ghost t = s.skip(k as int);
        proof {
            assert(t =~= seq![c] + input.rest());
        }
        let token = read_token(c, input, Ghost(t));
        let (value, end) = match token {
            Ok(v) => v,
            Err(e) => {
                proof {
                    lemma_skip_skip(s, k as int, scan_end(scan_token(t)) as int);
                }
                return ParserError::extend(e, k);
            },
        };
        let ghost u = t.skip(end as int);
        proof {
            lemma_skip_skip(s, k as int, end as int);
        }
        let trailing = check_comment_or_whitespaces(input, false);
        proof {
            lemma_skip_skip(s, (k + end) as int, scan_end(scan_trailing(u, false)) as int);
        }
        match trailing {
            None => Ok(value),
            Some(e) => ParserError::extend(e, k + end),
        }
    }
}

/// Reads the value whose first character `first` has just been read, and
/// gives it with the number of characters that it took.
fn read_token<S: Supplier>(first: char, input: &mut S, Ghost(t): Ghost<Seq<char>>) -> (r: Result<
    (Value, usize),
    ParserError,
>)
    requires
        t == seq![first] + old(input).rest(),
        t.len() < usize::MAX,
    ensures
        match scan_token(t) {
            Scan::Done { value, end } => r matches Ok(v) && v.0@ == value && v.1 as nat == end,
            Scan::Failed { error, offset, .. } => r matches Err(e) && e.error == error && e.offset as nat == offset,
        },
        r matches Err(e) ==> e.offset as nat <= t.len(),
        r matches Ok(v) ==> v.1 as nat <= t.len(),
        scan_end(scan_token(t)) <= t.len(),
        final(input).rest() == t.skip(scan_end(scan_token(t)) as int),
{
    if first == '"' || first == '\'' {
        return match String::parse(first, input) {
            Ok((v, end)) => Ok((Value::String(v), end)),
            Err(e) => Err(e),
        };
    }
    if first == 't' || first == 'f' {
        return match Boolean::parse(first, input) {
            Ok((v, end)) => Ok((Value::Boolean(v), end)),
            Err(e) => Err(e),
        };
    }
    if first == '+' || first == '-' || first == '.' {
        return match Number::parse(first, input) {
            Ok((v, end)) => Ok((Value::Number(v), end)),
            Err(e) => Err(e),
        };
    }
    if !is_digit_char(first) {
        return ParserError::from(FormatError::EmptyValue, 0);
    }
    if starts_with_date_or_time(first, input, Ghost(t)) {
        match DateTime::parse(first, input) {
            Ok((v, end)) => Ok((Value::DateTime(v), end)),
            Err(e) => Err(e),
        }
    } else {
        match Number::parse(first, input) {
            Ok((v, end)) => Ok((Value::Number(v), end)),
            Err(e) => Err(e),
        }
    }
}

/// Whether `t`, of which `first` has been read, begins with a date or a time;
/// the characters looked at are put back.
fn starts_with_date_or_time<S: Supplier>(first: char, input: &mut S, Ghost(t): Ghost<Seq<char>>) -> (r:
    bool)
    requires
        t == seq![first] + old(input).rest(),
    ensures
        r == (is_time_start(t) || is_date_start(t)),
        final(input).rest() == old(input).rest(),
{
    let mut ahead: Vec<char> = Vec::new();
    proof {
        assert(t.skip(1) =~= input.rest());
        assert(ahead@ =~= t.subrange(1, 1));
    }
    let mut ended = false;
    while ahead.len() < 4 && !ended
        invariant
            ended ==> input.rest().len() == 0,
            ahead.len() <= 4,
            1 + ahead.len() <= t.len(),
            ahead@ == t.subrange(1, 1 + ahead.len()),
            input.rest() == t.skip(1 + ahead.len()),
            t == seq![first] + old(input).rest(),
        decreases 4 - ahead.len() + (if ended { 0int } else { 1int }),
    {
        match input.get() {
            None => {
                ended = true;
            },
            Some(c) => {
                proof {
                    lemma_skip_next(t, 1 + ahead.len());
                }
                ahead.push(c);
                proof {
                    assert(ahead@ =~= t.subrange(1, 1 + ahead.len()));
                }
            },
        }
    }
    let n = ahead.len();
    proof {
        assert(n < 4 ==> t.len() == 1 + n);
    }
    let time = n >= 2 && is_digit_char(first) && is_digit_char(ahead[0]) && ahead[1] == ':';
    let date = n >= 4 && is_digit_char(first) && is_digit_char(ahead[0]) && is_digit_char(ahead[1])
        && is_digit_char(ahead[2]) && ahead[3] == '-';
    let mut k = n;
    while k > 0
        invariant
            k <= n == ahead.len(),
            ahead@ == t.subrange(1, 1 + n),
            1 + n <= t.len(),
            input.rest() == t.skip(1 + k),
        decreases k,
    {
        k = k - 1;
        input.unread(ahead[k]);
        proof {
            lemma_skip_back(t, 1 + k);
        }
    }
    proof {
        assert(t.skip(1) =~= old(input).rest());
    }
    time || date
}

/// Reads a value, and the rest of its line, from `input`.
pub fn parse_value<S: Supplier>(input: &mut S) -> (r: Result<Value, ParserError>)
    requires
        old(input).rest().len() < usize::MAX,
    ensures
        reads(r, scan_value(old(input).rest())),
        final(input).rest() == old(input).rest().skip(scan_end(scan_value(old(input).rest())) as int),
{
    ValueParser::parse(input)
}

/// The key path of an entry from `t[i]` on, `keys` having been read before:
/// segments after blanks, each ended by `.` but the last, which `=` ends.
pub open spec fn scan_key_path(t: Seq<char>, i: nat, keys: Seq<Seq<char>>) -> Scan<Seq<Seq<char>>>
    decreases t.len() - i,
{
    let k = skip_blanks(t, i);
    if k >= t.len() || is_linebreak(t[k as int]) {
        fail(FormatError::EmptyValue, k, t)
    } else {
        match shift(scan_key_segment(t.skip(k as int)), k) {
            Scan::Failed { error, offset, end } => Scan::Failed { error, offset, end },
            Scan::Done { value, end } => if value.1 {
                Scan::Done { value: keys.push(value.0), end }
            } else {
                proof {
                    lemma_skip_blanks_ge(t, i);
                    lemma_segment_end(t.skip(k as int));
                }
                scan_key_path(t, end, keys.push(value.0))
            },
        }
    }
}

/// An entry line of `s`: its key path, `=`, and its value with the rest of the line.
pub open spec fn scan_entry(s: Seq<char>) -> Scan<(Seq<Seq<char>>, ValueModel)> {
    match scan_entry_start(s, 0) {
        Scan::Failed { error, offset, end } => Scan::Failed { error, offset, end },
        Scan::Done { end: start, .. } => match scan_key_path(s, start, Seq::empty()) {
            Scan::Failed { error, offset, end } => Scan::Failed { error, offset, end },
            Scan::Done { value: keys, end } => match shift(scan_value(s.skip(end as int)), end) {
                Scan::Failed { error, offset, end } => Scan::Failed { error, offset, end },
                Scan::Done { value, end } => Scan::Done { value: (keys, value), end },
            },
        },
    }
}

/// Where the next entry begins, from `t[i]` on: blank lines, and lines that
/// hold only a comment, are passed over. The end is the index of the entry's
/// first character.
pub open spec fn scan_entry_start(t: Seq<char>, i: nat) -> Scan<()>
    decreases t.len() - i,
{
    let k = skip_blanks(t, i);
    if k >= t.len() {
        fail(FormatError::EmptyValue, k, t)
    } else if is_linebreak(t[k as int]) {
        proof {
            lemma_skip_blanks_ge(t, i);
        }
        scan_entry_start(t, k + 1)
    } else if t[k as int] == '#' {
        match shift(scan_trailing(t.skip(k + 1 as int), true), k + 1) {
            Scan::Failed { error, offset, end } => Scan::Failed { error, offset, end },
            Scan::Done { end, .. } => {
                proof {
                    lemma_skip_blanks_ge(t, i);
                    lemma_trailing_end(t.skip(k + 1 as int), true);
                }
                scan_entry_start(t, end)
            },
        }
    } else {
        Scan::Done { value: (), end: k }
    }
}

/// Finds where the next entry begins, passing over blank lines and lines
/// that hold only a comment; the entry's first character is left to read.
fn read_entry_start<S: Supplier>(input: &mut S, Ghost(s): Ghost<Seq<char>>) -> (r: Result<usize, ParserError>)
    requires
        old(input).rest() == s,
        s.len() + 1 < usize::MAX,
    ensures
        match scan_entry_start(s, 0) {
            Scan::Done { end, .. } => r == Ok::<usize, ParserError>(end as usize) && end <= s.len(),
            Scan::Failed { error, offset, .. } => r matches Err(e) && e.error == error && e.offset as nat
                == offset,
        },
        r matches Err(e) ==> e.offset as nat <= s.len(),
        scan_end(scan_entry_start(s, 0)) <= s.len(),
        final(input).rest() == s.skip(scan_end(scan_entry_start(s, 0)) as int),
{
    let ghost target = scan_entry_start(s, 0);
    let mut i: usize = 0;
    proof {
        assert(s.skip(0) =~= s);
    }
    loop
        invariant
            i <= s.len(),
            s.len() + 1 < usize::MAX,
            input.rest() == s.skip(i as int),
            scan_entry_start(s, i as nat) == target,
            target == scan_entry_start(s, 0),
        decreases s.len() - i,
    {
        let (c, k) = skip_blanks_counting(input, false);
        proof {
            lemma_skip_blanks_shift(s, i as nat);
        }
        let c = match c {
            None => {
                proof {
                    assert(input.rest() =~= s.skip(s.len() as int));
                }
                return ParserError::from(FormatError::EmptyValue, i + k);
            },
            Some(c) => c,
        };
        proof {
            lemma_skip_skip(s, i as int, k + 1);
        }
        if c.is_linebreak() {
            i = i + k + 1;
        } else if c == '#' {
            let ghost u = s.skip(i + k + 1);
            let (err, n) = check_trailing_counting(input, true);
            proof {
                lemma_skip_skip(s, (i + k + 1) as int, scan_end(scan_trailing(u, true)) as int);
            }
            match err {
                Some(e) => {
                    return ParserError::extend(e, i + k + 1);
                },
                None => {
                    i = i + k + 1 + n;
                },
            }
        } else {
            input.unread(c);
            proof {
                lemma_skip_back(s, (i + k) as int);
            }
            return Ok(i + k);
        }
    }
}


/// A key path and the value that it names.
#[derive(Debug, Clone, PartialEq)]
pub struct Entry {
    pub path: Vec<Key>,
    pub value: Value,
}

/// The names of the keys of `path`.
pub open spec fn key_names(path: Seq<Key>) -> Seq<Seq<char>> {
    path.map_values(|k: Key| k.name@)
}

impl View for Entry {
    type V = (Seq<Seq<char>>, ValueModel);

    open spec fn view(&self) -> (Seq<Seq<char>>, ValueModel) {
        (key_names(self.path@), self.value@)
    }
}

/// One step of a key path at `t[i]`: blanks, then a segment.
proof fn lemma_key_path_step(t: Seq<char>, i: nat, keys: Seq<Seq<char>>)
    requires
        skip_blanks(t, i) < t.len(),
        !is_linebreak(t[skip_blanks(t, i) as int]),
    ensures
        ({
            let k = skip_blanks(t, i);
            match shift(scan_key_segment(t.skip(k as int)), k) {
                Scan::Failed { error, offset, end } => scan_key_path(t, i, keys) == (Scan::<Seq<Seq<char>>>::Failed {
                    error,
                    offset,
                    end,
                }),
                Scan::Done { value, end } => if value.1 {
                    scan_key_path(t, i, keys) == (Scan::Done { value: keys.push(value.0), end })
                } else {
                    scan_key_path(t, i, keys) == scan_key_path(t, end, keys.push(value.0))
                },
            }
        }),
{
}

/// Reads the key path of an entry line, and says where it ended.
fn read_key_path<S: Supplier>(input: &mut S, Ghost(s): Ghost<Seq<char>>, start: usize) -> (r: Result<
    (Vec<Key>, usize),
    ParserError,
>)
    requires
        old(input).rest() == s.skip(start as int),
        start <= s.len(),
        s.len() + 1 < usize::MAX,
    ensures
        match scan_key_path(s, start as nat, Seq::empty()) {
            Scan::Done { value, end } => r matches Ok(v) && key_names(v.0@) == value && v.1 as nat == end,
            Scan::Failed { error, offset, .. } => r matches Err(e) && e.error == error && e.offset as nat
                == offset,
        },
        r matches Ok(v) ==> v.1 <= s.len(),
        r matches Err(e) ==> e.offset as nat <= s.len(),
        scan_end(scan_key_path(s, start as nat, Seq::empty())) <= s.len(),
        final(input).rest() == s.skip(scan_end(scan_key_path(s, start as nat, Seq::empty())) as int),
{
    let ghost target = scan_key_path(s, start as nat, Seq::empty());
    let mut path: Vec<Key> = Vec::new();
    let mut i: usize = start;
    proof {
        assert(key_names(path@) =~= Seq::<Seq<char>>::empty());
    }
    loop
        invariant
            i <= s.len(),
            s.len() + 1 < usize::MAX,
            input.rest() == s.skip(i as int),
            scan_key_path(s, i as nat, key_names(path@)) == target,
            target == scan_key_path(s, start as nat, Seq::empty()),
        decreases s.len() - i,
    {
        let ghost u = s.skip(i as int);
        let ghost names = key_names(path@);
        let (c, k) = skip_blanks_counting(input, true);
        proof {
            lemma_skip_blanks_shift(s, i as nat);
        }
        let c = match c {
            None => {
                proof {
                    if k < u.len() {
                        lemma_skip_skip(s, i as int, k + 1);
                    } else {
                        assert(input.rest() =~= s.skip(s.len() as int));
                    }
                }
                return ParserError::from(FormatError::EmptyValue, i + k);
            },
            Some(c) => c,
        };
        let ghost t = s.skip(i + k);
        proof {
            lemma_skip_skip(s, i as int, k + 1);
            assert(t =~= seq![c] + input.rest());
            lemma_segment_end(t);
            lemma_key_path_step(s, i as nat, names);
        }
        match read_segment(c, input) {
            Err(e) => {
                proof {
                    lemma_skip_skip(s, (i + k) as int, scan_end(scan_key_segment(t)) as int);
                }
                return ParserError::extend(e, i + k);
            },
            Ok((key, done, end)) => {
                proof {
                    lemma_skip_skip(s, (i + k) as int, end as int);
                    assert(key_names(path@.push(key)) =~= names.push(key.name@));
                }
                path.push(key);
                i = i + k + end;
                if done {
                    return Ok((path, i));
                }
            },
        }
    }
}

/// Reads the next entry from `input`, past blank lines and lines that hold
/// only a comment: its key path, `=`, and its value with the rest of the line.
pub fn parse_entry<S: Supplier>(input: &mut S) -> (r: Result<Entry, ParserError>)
    requires
        old(input).rest().len() + 1 < usize::MAX,
    ensures
        reads(r, scan_entry(old(input).rest())),
        final(input).rest() == old(input).rest().skip(scan_end(scan_entry(old(input).rest())) as int),
{
    let ghost s = input.rest();
    let start = match read_entry_start(input, Ghost(s)) {
        Ok(k) => k,
        Err(e) => {
            return Err(e);
        },
    };
    let (path, i) = match read_key_path(input, Ghost(s), start) {
        Ok(v) => v,
        Err(e) => {
            return Err(e);
        },
    };
    let ghost rest = s.skip(i as int);
    let r = ValueParser::parse(input);
    proof {
        lemma_skip_skip(s, i as int, scan_end(scan_value(rest)) as int);
    }
    match r {
        Ok(value) => Ok(Entry { path, value }),
        Err(e) => ParserError::extend(e, i),
    }
}

} // verus!
