use vstd::prelude::*;
use crate::chars::{is_blank, is_control, is_control_char, is_linebreak, CharExt, COMMENT_START};
use crate::errors::{FormatError, ParserError, UnallowedCharacterReason};
use crate::reader::Supplier;
use crate::scan::{char_at, fail, lemma_skip_next, scan_end, Scan};

verus! {

/// The index of the first character of `s`, from `i` on, that is not blank.
pub open spec fn skip_blanks(s: Seq<char>, i: nat) -> nat
    decreases s.len() - i,
{
    if i < s.len() && is_blank(s[i as int]) {
        skip_blanks(s, i + 1)
    } else {
        i
    }
}

pub proof fn lemma_skip_blanks_ge(s: Seq<char>, i: nat)
    ensures
        i <= skip_blanks(s, i),
        i <= s.len() ==> skip_blanks(s, i) <= s.len(),
    decreases s.len() - i,
{
    if i < s.len() && is_blank(s[i as int]) {
        lemma_skip_blanks_ge(s, i + 1);
    }
}

/// Blanks that run to the end of `s` end it with a blank.
proof fn lemma_blanks_to_end(s: Seq<char>, i: nat)
    requires
        i < s.len(),
        skip_blanks(s, i) == s.len(),
    ensures
        is_blank(s[s.len() - 1]),
    decreases s.len() - i,
{
    if i + 1 < s.len() {
        lemma_blanks_to_end(s, i + 1);
    }
}

pub proof fn lemma_trailing_end(u: Seq<char>, in_comment: bool)
    ensures
        scan_trailing(u, in_comment) matches Scan::Done { end, .. } ==> end <= u.len(),
{
    lemma_skip_blanks_ge(u, 0);
    lemma_comment_end(u, skip_blanks(u, 0));
}

/// Reads past blanks; gives the first other character, with its index, or
/// `None` at the end or, where `stop_at_linebreak`, at a line break.
pub fn skip_blanks_counting<S: Supplier>(input: &mut S, stop_at_linebreak: bool) -> (r: (
    Option<char>,
    usize,
))
    requires
        old(input).rest().len() < usize::MAX,
    ensures
        r.1 == skip_blanks(old(input).rest(), 0),
        r.1 <= old(input).rest().len(),
        final(input).last_spec() == char_at(old(input).rest(), r.1 as nat),
        r.1 == old(input).rest().len() ==> r.0 is None && final(input).rest().len() == 0,
        r.1 < old(input).rest().len() ==> final(input).rest() == old(input).rest().skip(r.1 + 1)
            && r.0 == (if stop_at_linebreak && is_linebreak(old(input).rest()[r.1 as int]) {
            None
        } else {
            Some(old(input).rest()[r.1 as int])
        }),
{
    let ghost s = input.rest();
    let mut i: usize = 0;
    proof {
        assert(s.skip(0) =~= s);
    }
    loop
        invariant
            i <= s.len() < usize::MAX,
            input.rest() == s.skip(i as int),
            skip_blanks(s, i as nat) == skip_blanks(s, 0),
            s == old(input).rest(),
        decreases s.len() - i,
    {
        match input.get() {
            None => {
                proof {
                    assert(s.skip(i as int).len() == 0);
                }
                return (None, i);
            },
            Some(c) => {
                proof {
                    lemma_skip_next(s, i as int);
                }
                if stop_at_linebreak && c.is_linebreak() {
                    return (None, i);
                }
                if !CharExt::is_whitespace(&c) {
                    return (Some(c), i);
                }
                i = i + 1;
            },
        }
    }
}

/// Advances past blanks and gives the first other character, or `None` at
/// the end or, where `stop_at_linebreak`, at a line break (which is read).
pub fn skip_whitespaces<S: Supplier>(input: &mut S, stop_at_linebreak: bool) -> (r: Option<char>)
    requires
        old(input).rest().len() < usize::MAX,
    ensures
        ({
            let s = old(input).rest();
            let k = skip_blanks(s, 0);
            &&& k >= s.len() ==> r is None && final(input).rest().len() == 0
            &&& k < s.len() ==> final(input).rest() == s.skip(k + 1 as int)
            &&& k < s.len() && stop_at_linebreak && is_linebreak(s[k as int]) ==> r is None
            &&& k < s.len() && !(stop_at_linebreak && is_linebreak(s[k as int])) ==> r == Some(s[k as int])
            &&& final(input).last_spec() == char_at(s, k)
        }),
{
    skip_blanks_counting(input, stop_at_linebreak).0
}

/// The text of a comment from `u[j]` on, up to and including its line break:
/// no control character in it but tab.
pub open spec fn scan_comment(u: Seq<char>, j: nat) -> Scan<()>
    decreases u.len() - j,
{
    if j >= u.len() {
        Scan::Done { value: (), end: u.len() }
    } else if is_linebreak(u[j as int]) {
        Scan::Done { value: (), end: j + 1 }
    } else if is_control(u[j as int]) && u[j as int] != '\t' {
        fail(FormatError::UnallowedCharacter(u[j as int], UnallowedCharacterReason::InComment), j, u)
    } else {
        scan_comment(u, j + 1)
    }
}

pub proof fn lemma_comment_end(u: Seq<char>, j: nat)
    ensures
        scan_comment(u, j) matches Scan::Done { end, .. } ==> end <= u.len(),
    decreases u.len() - j,
{
    if j < u.len() && !is_linebreak(u[j as int]) && !(is_control(u[j as int]) && u[j as int] != '\t') {
        lemma_comment_end(u, j + 1);
    }
}

/// The character that reading the rest of a line `u` handed out last: its
/// line break, none where the input ended, or the one at an error.
pub open spec fn trailing_last_read(u: Seq<char>, scan: Scan<()>) -> Option<char> {
    match scan {
        Scan::Done { end, .. } => if end > 0 && is_linebreak(u[end - 1]) {
            Some(u[end - 1])
        } else {
            None
        },
        Scan::Failed { offset, .. } => char_at(u, offset),
    }
}

/// What may follow a value on its line: blanks, then the end of the line or
/// of the input, or a comment; `in_comment` where a comment has begun already.
pub open spec fn scan_trailing(u: Seq<char>, in_comment: bool) -> Scan<()> {
    let k = skip_blanks(u, 0);
    if k >= u.len() {
        Scan::Done { value: (), end: u.len() }
    } else if is_linebreak(u[k as int]) {
        Scan::Done { value: (), end: k + 1 }
    } else if !in_comment && u[k as int] != '#' {
        fail(FormatError::ExpectedCharacter('#'), k, u)
    } else {
        scan_comment(u, k)
    }
}

/// Checks that the rest of the line holds only blanks and perhaps a comment,
/// reading up to and including its line break; gives how many characters it read.
pub(crate) fn check_trailing_counting<S: Supplier>(input: &mut S, is_comment: bool) -> (r: (Option<
    ParserError,
>, usize))
    requires
        old(input).rest().len() < usize::MAX,
    ensures
        ({
            let u = old(input).rest();
            match scan_trailing(u, is_comment) {
                Scan::Done { end, .. } => r.0 is None && r.1 as nat == end && final(input).rest() == u.skip(end as int),
                Scan::Failed { error, offset, end } => r.0 matches Some(er) && er.error == error && er.offset as nat == offset
                    && final(input).rest() == u.skip(end as int),
            }
        }),
        r.0 matches Some(e) ==> e.offset as nat <= old(input).rest().len(),
        final(input).last_spec() == trailing_last_read(old(input).rest(), scan_trailing(old(input).rest(), is_comment)),
        scan_end(scan_trailing(old(input).rest(), is_comment)) <= old(input).rest().len(),
{
    let ghost u = input.rest();
    let (first, k) = skip_blanks_counting(input, false);
    let c = match first {
        None => {
            proof {
                assert(input.rest() =~= u.skip(u.len() as int));
                if u.len() > 0 {
                    lemma_blanks_to_end(u, 0);
                }
            }
            return (None, k);
        },
        Some(c) => c,
    };
    if c.is_linebreak() {
        return (None, k + 1);
    }
    if !is_comment && !c.is_comment_start() {
        return (Some(ParserError { error: FormatError::ExpectedCharacter(COMMENT_START), offset: k }), k + 1);
    }
    let mut j: usize = k;
    let mut c = c;
    loop
        invariant
            k <= j < u.len() < usize::MAX,
            c == u[j as int],
            input.last_spec() == Some(c),
            !is_linebreak(c),
            input.rest() == u.skip(j + 1),
            scan_comment(u, j as nat) == scan_comment(u, k as nat),
            scan_trailing(u, is_comment) == scan_comment(u, k as nat),
            u == old(input).rest(),
        decreases u.len() - j,
    {
        if is_control_char(c) && c != '\t' {
            return (
                Some(
                    ParserError {
                        error: FormatError::UnallowedCharacter(c, UnallowedCharacterReason::InComment),
                        offset: j,
                    },
                ),
                j + 1,
            );
        }
        match input.get() {
            None => {
                proof {
                    assert(input.rest() =~= u.skip(u.len() as int));
                    assert(j + 1 == u.len());
                    assert(scan_comment(u, (j + 1) as nat) == (Scan::Done { value: (), end: u.len() }));
                }
                return (None, j + 1);
            },
            Some(next) => {
                proof {
                    lemma_skip_next(u, j + 1);
                }
                j = j + 1;
                if next.is_linebreak() {
                    return (None, j + 1);
                }
                c = next;
            },
        }
    }
}

/// Checks that the rest of the line holds only blanks and perhaps a comment,
/// reading up to and including its line break.
pub fn check_comment_or_whitespaces<S: Supplier>(input: &mut S, is_comment: bool) -> (r: Option<
    ParserError,
>)
    requires
        old(input).rest().len() < usize::MAX,
    ensures
        ({
            let u = old(input).rest();
            match scan_trailing(u, is_comment) {
                Scan::Done { end, .. } => r is None && final(input).rest() == u.skip(end as int),
                Scan::Failed { error, offset, end } => r matches Some(er) && er.error == error && er.offset as nat == offset
                    && final(input).rest() == u.skip(end as int),
            }
        }),
        r matches Some(e) ==> e.offset as nat <= old(input).rest().len(),
        final(input).last_spec() == trailing_last_read(old(input).rest(), scan_trailing(old(input).rest(), is_comment)),
        scan_end(scan_trailing(old(input).rest(), is_comment)) <= old(input).rest().len(),
{
    check_trailing_counting(input, is_comment).0
}

/// A counter that climbs from zero and stops at a bound.
pub struct Counter {
    value: u8,
    max: u8,
}

impl Counter {
    pub closed spec fn count(&self) -> nat {
        self.value as nat
    }

    pub closed spec fn bound(&self) -> nat {
        self.max as nat
    }

    /// A counter at zero that stops at `max`.
    pub fn new(max: u8) -> (r: Counter)
        ensures
            r.count() == 0,
            r.bound() == max,
    {
        Counter { value: 0, max }
    }

    /// The counter one step further, unless it stands at its bound already.
    pub fn inc(self) -> (r: Counter)
        ensures
            r.bound() == self.bound(),
            self.count() < self.bound() ==> r.count() == self.count() + 1,
            self.count() >= self.bound() ==> r.count() == self.count(),
    {
        let mut c = self;
        if !c.is_capped() {
            c.value = c.value + 1;
        }
        c
    }

    pub fn is_capped(&self) -> (r: bool)
        ensures
            r == (self.count() >= self.bound()),
    {
        self.value >= self.max
    }

    pub fn is_zero(&self) -> (r: bool)
        ensures
            r == (self.count() == 0),
    {
        self.value == 0
    }
}

} // verus!
