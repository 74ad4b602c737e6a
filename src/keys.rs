use vstd::prelude::*;
use crate::chars::{is_blank, is_linebreak, CharExt};
use crate::common::{lemma_skip_blanks_ge, skip_blanks, skip_blanks_counting};
use crate::errors::{FormatError, ParserError, UnallowedCharacterReason};
use crate::reader::Supplier;
use crate::scan::{fail, lemma_skip_next, lemma_skip_skip, scan_end, Scan};
use crate::string::{scan_string, String};

verus! {

/// One segment of a dotted key path.
#[derive(Debug, Clone, PartialEq, Eq, Hash)]
pub struct Key {
    pub name: std::string::String,
}

impl Key {
    pub fn new(name: std::string::String) -> (r: Key)
        ensures
            r.name@ == name@,
    {
        Key { name }
    }
}

/// A character of a bare key: an ASCII letter or digit, `_` or `-`.
pub open spec fn is_bare_key_char(c: char) -> bool {
    ('a' <= c && c <= 'z') || ('A' <= c && c <= 'Z') || ('0' <= c && c <= '9') || c == '_' || c == '-'
}

pub fn is_bare_key_character(c: char) -> (r: bool)
    ensures
        r == is_bare_key_char(c),
{
    ('a' <= c && c <= 'z') || ('A' <= c && c <= 'Z') || ('0' <= c && c <= '9') || c == '_' || c == '-'
}

/// What ends a key `name` whose text stops before `t[j]`: blanks, then `.`
/// (more segments follow) or `=` (the value follows).
pub open spec fn scan_after_key(t: Seq<char>, j: nat, name: Seq<char>) -> Scan<(Seq<char>, bool)> {
    let k = skip_blanks(t, j);
    if k >= t.len() || is_linebreak(t[k as int]) {
        fail(FormatError::EmptyValue, k, t)
    } else if t[k as int] == '=' || t[k as int] == '.' {
        Scan::Done { value: (name, t[k as int] == '='), end: k + 1 }
    } else {
        fail(FormatError::UnallowedCharacter(t[k as int], UnallowedCharacterReason::InKey), k, t)
    }
}

/// A bare key from `t[i]` on, `name` having been read before it.
pub open spec fn scan_bare_key(t: Seq<char>, i: nat, name: Seq<char>) -> Scan<(Seq<char>, bool)>
    decreases t.len() - i,
{
    if i >= t.len() {
        fail(FormatError::UnexpectedEnd, i, t)
    } else {
        let c = t[i as int];
        if is_bare_key_char(c) {
            scan_bare_key(t, i + 1, name.push(c))
        } else if c == '.' || c == '=' {
            if name.len() == 0 {
                fail(FormatError::EmptyValue, i, t)
            } else {
                Scan::Done { value: (name, c == '='), end: i + 1 }
            }
        } else if is_blank(c) {
            scan_after_key(t, i + 1, name)
        } else {
            fail(FormatError::UnallowedCharacter(c, UnallowedCharacterReason::InKey), i, t)
        }
    }
}

/// A key segment that begins at `t[0]`: a quoted string or a bare key, then
/// `.` or `=`; the flag tells whether it was `=`.
pub open spec fn scan_key_segment(t: Seq<char>) -> Scan<(Seq<char>, bool)> {
    if t[0] == '"' || t[0] == '\'' {
        match scan_string(t) {
            Scan::Failed { error, offset, end } => Scan::Failed { error, offset, end },
            Scan::Done { value, end } => scan_after_key(t, end, value),
        }
    } else {
        scan_bare_key(t, 0, Seq::empty())
    }
}

/// Reads the blanks after a key `name` that stops before `t[j]`, then `.` or `=`.
fn read_after_key<S: Supplier>(
    input: &mut S,
    Ghost(t): Ghost<Seq<char>>,
    j: usize,
    name: std::string::String,
) -> (r: Result<(Key, bool, usize), ParserError>)
    requires
        old(input).rest() == t.skip(j as int),
        j <= t.len() < usize::MAX,
    ensures
        match scan_after_key(t, j as nat, name@) {
            Scan::Done { value, end } => r matches Ok(v) && v.0.name@ == value.0 && v.1 == value.1
                && v.2 as nat == end,
            Scan::Failed { error, offset, .. } => r matches Err(e) && e.error == error && e.offset as nat == offset,
        },
        r matches Err(e) ==> e.offset as nat <= t.len(),
        scan_end(scan_after_key(t, j as nat, name@)) <= t.len(),
        final(input).rest() == t.skip(scan_end(scan_after_key(t, j as nat, name@)) as int),
{
    let ghost u = t.skip(j as int);
    let (c, k) = skip_blanks_counting(input, true);
    proof {
        lemma_skip_blanks_shift(t, j as nat);
        if k < u.len() {
            lemma_skip_skip(t, j as int, k + 1);
            assert(u[k as int] == t[j + k]);
        } else {
            assert(t.skip(t.len() as int) =~= input.rest());
        }
    }
    match c {
        None => ParserError::from(FormatError::EmptyValue, j + k),
        Some(c) => if c == '=' || c == '.' {
            Ok((Key::new(name), c == '=', j + k + 1))
        } else {
            ParserError::from(FormatError::UnallowedCharacter(c, UnallowedCharacterReason::InKey), j + k)
        },
    }
}

/// Skipping blanks in `t.skip(j)` is skipping them in `t` from `j`.
pub proof fn lemma_skip_blanks_shift(t: Seq<char>, j: nat)
    requires
        j <= t.len(),
    ensures
        skip_blanks(t.skip(j as int), 0) + j == skip_blanks(t, j),
{
    lemma_skip_blanks_shift_from(t, j, 0);
}

proof fn lemma_skip_blanks_shift_from(t: Seq<char>, j: nat, i: nat)
    requires
        j + i <= t.len(),
    ensures
        skip_blanks(t.skip(j as int), i) + j == skip_blanks(t, j + i),
    decreases t.len() - (j + i),
{
    let u = t.skip(j as int);
    if j + i < t.len() {
        assert(u[i as int] == t[j + i as int]);
        lemma_skip_blanks_shift_from(t, j, i + 1);
    }
}

/// Reads one key segment whose first character `first` has just been read,
/// and says where it ended.
pub(crate) fn read_segment<S: Supplier>(first: char, input: &mut S) -> (r: Result<(Key, bool, usize), ParserError>)
    requires
        old(input).rest().len() + 1 < usize::MAX,
    ensures
        match scan_key_segment(seq![first] + old(input).rest()) {
            Scan::Done { value, end } => r matches Ok(v) && v.0.name@ == value.0 && v.1 == value.1
                && v.2 as nat == end,
            Scan::Failed { error, offset, .. } => r matches Err(e) && e.error == error && e.offset as nat
                == offset,
        },
        r matches Err(e) ==> e.offset as nat <= old(input).rest().len() + 1,
        scan_end(scan_key_segment(seq![first] + old(input).rest())) <= old(input).rest().len() + 1,
        final(input).rest() == (seq![first] + old(input).rest()).skip(
            scan_end(scan_key_segment(seq![first] + old(input).rest())) as int,
        ),
{
    let ghost t = seq![first] + input.rest();
    proof {
        assert(t.skip(1) =~= input.rest());
    }
    if first == '"' || first == '\'' {
        let (name, end) = match String::parse(first, input) {
            Ok(v) => v,
            Err(e) => {
                return Err(e);
            },
        };
        return read_after_key(input, Ghost(t), end, name);
    }
    input.unread(first);
    proof {
        assert(input.rest() =~= t);
        assert(t.skip(0) =~= t);
    }
    let ghost target = scan_bare_key(t, 0, Seq::empty());
    let mut name: Vec<char> = Vec::new();
    let mut i: usize = 0;
    proof {
        assert(name@ =~= Seq::<char>::empty());
    }
    loop
        invariant
            i <= t.len() < usize::MAX,
            input.rest() == t.skip(i as int),
            scan_bare_key(t, i as nat, name@) == target,
            target == scan_bare_key(t, 0, Seq::empty()),
            t == seq![first] + old(input).rest(),
            t[0] == first,
            first != '"' && first != '\'',
        decreases t.len() - i,
    {
        let c = match input.get() {
            None => {
                proof {
                    assert(input.rest() =~= t.skip(t.len() as int));
                }
                return ParserError::from(FormatError::UnexpectedEnd, i);
            },
            Some(c) => c,
        };
        proof {
            lemma_skip_next(t, i as int);
        }
        if is_bare_key_character(c) {
            name.push(c);
            i = i + 1;
        } else if c == '.' || c == '=' {
            if name.len() == 0 {
                return ParserError::from(FormatError::EmptyValue, i);
            }
            return Ok((Key::new(crate::text::string_from_chars(&name)), c == '=', i + 1));
        } else if CharExt::is_whitespace(&c) {
            return read_after_key(input, Ghost(t), i + 1, crate::text::string_from_chars(&name));
        } else {
            return ParserError::from(
                FormatError::UnallowedCharacter(c, UnallowedCharacterReason::InKey),
                i,
            );
        }
    }
}

/// The parser of the keys of an entry.
pub struct KeyParser;

impl KeyParser {
    /// Reads one key segment whose first character `first` has just been
    /// read: a quoted or a bare key, then `.` or `=`. Gives the key and
    /// whether `=` ended it.
    pub fn parse_segment<S: Supplier>(first: char, input: &mut S) -> (r: Result<(Key, bool), ParserError>)
        requires
            old(input).rest().len() + 1 < usize::MAX,
        ensures
            match scan_key_segment(seq![first] + old(input).rest()) {
                Scan::Done { value, .. } => r matches Ok(v) && v.0.name@ == value.0 && v.1 == value.1,
                Scan::Failed { error, offset, .. } => r matches Err(e) && e.error == error && e.offset as nat
                    == offset,
            },
            final(input).rest() == (seq![first] + old(input).rest()).skip(
                scan_end(scan_key_segment(seq![first] + old(input).rest())) as int,
            ),
    {
        match read_segment(first, input) {
            Ok((key, done, _)) => Ok((key, done)),
            Err(e) => Err(e),
        }
    }
}

pub proof fn lemma_after_key_end(t: Seq<char>, j: nat, name: Seq<char>)
    ensures
        scan_after_key(t, j, name) matches Scan::Done { end, .. } ==> j + 1 <= end <= t.len(),
{
    lemma_skip_blanks_ge(t, j);
}

pub proof fn lemma_bare_key_end(t: Seq<char>, i: nat, name: Seq<char>)
    ensures
        scan_bare_key(t, i, name) matches Scan::Done { end, .. } ==> i + 1 <= end <= t.len(),
    decreases t.len() - i,
{
    if i < t.len() {
        let c = t[i as int];
        if is_bare_key_char(c) {
            lemma_bare_key_end(t, i + 1, name.push(c));
        } else if is_blank(c) {
            lemma_after_key_end(t, i + 1, name);
        }
    }
}

/// A key segment that reads well takes at least one character, and no more
/// than there are.
pub proof fn lemma_segment_end(u: Seq<char>)
    requires
        u.len() >= 1,
    ensures
        scan_key_segment(u) matches Scan::Done { end, .. } ==> 1 <= end <= u.len(),
{
    if u[0] == '"' || u[0] == '\'' {
        match scan_string(u) {
            Scan::Done { value, end } => lemma_after_key_end(u, end, value),
            _ => {},
        }
    } else {
        lemma_bare_key_end(u, 0, Seq::empty());
    }
}

} // verus!
