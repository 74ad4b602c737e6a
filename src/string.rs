use vstd::prelude::*;
use crate::chars::{
    is_blank, is_control, is_hex_digit, hex_value, is_linebreak, is_special_control,
    hex_digit_value, is_control_char, CharExt, DOUBLE_QUOTE, SINGLE_QUOTE, ESCAPE_START,
};
use crate::errors::{FormatError, ParserError, UnallowedCharacterReason};
use crate::reader::Supplier;
use crate::scan::{char_at, last_read_closed, TypeParser, end_within, offset_within, fail, lemma_skip_back, lemma_skip_next, reads_until, scan_end, Scan};
use crate::text::{char_from_code, is_scalar, string_from_chars};

verus! {

/// The four forms of string.
#[derive(Debug, Clone, Copy, PartialEq, Eq, Structural)]
pub enum StringType {
    Basic,
    Literal,
    BasicMultiline,
    LiteralMultiline,
}

/// Where a string body stands with respect to escape sequences.
#[derive(Debug, Clone, Copy, PartialEq, Eq, Structural)]
pub enum Escape {
    /// Ordinary text.
    Plain,
    /// Just after a backslash.
    Backslash,
    /// Inside `\u` or `\U`: `left` hex digits to go, `value` of those read.
    Codepoint { left: u8, value: u32 },
    /// After a line-ending backslash: blanks and line breaks are dropped.
    LineSkip,
}

impl StringType {
    pub open spec fn spec_quote(self) -> char {
        match self {
            StringType::Basic | StringType::BasicMultiline => '"',
            _ => '\'',
        }
    }

    pub open spec fn spec_is_multiline(self) -> bool {
        self == StringType::BasicMultiline || self == StringType::LiteralMultiline
    }

    pub open spec fn spec_is_basic(self) -> bool {
        self == StringType::Basic || self == StringType::BasicMultiline
    }

    /// The delimiter character.
    pub fn quote(&self) -> (r: char)
        ensures
            r == self.spec_quote(),
    {
        match self {
            StringType::Basic | StringType::BasicMultiline => DOUBLE_QUOTE,
            _ => SINGLE_QUOTE,
        }
    }

    /// The closing delimiter: three quotes for a multi-line form, else one.
    pub fn quotes(&self) -> (r: &'static str)
        ensures
            r == spec_quotes(*self),
    {
        match self {
            StringType::Basic => "\"",
            StringType::Literal => "'",
            StringType::BasicMultiline => "\"\"\"",
            StringType::LiteralMultiline => "'''",
        }
    }

    pub fn is_multiline(&self) -> (r: bool)
        ensures
            r == self.spec_is_multiline(),
    {
        matches!(self, StringType::BasicMultiline | StringType::LiteralMultiline)
    }

    /// The multi-line form with the same delimiter.
    pub fn to_multiline(self) -> (r: StringType)
        ensures
            r == spec_to_multiline(self),
    {
        match self {
            StringType::Basic => StringType::BasicMultiline,
            StringType::Literal => StringType::LiteralMultiline,
            same => same,
        }
    }

    /// The reason given for a character that this form does not allow.
    pub fn reason(&self) -> (r: UnallowedCharacterReason)
        ensures
            r == spec_reason(*self),
    {
        match self {
            StringType::Basic => UnallowedCharacterReason::InTypeBasicString,
            StringType::Literal => UnallowedCharacterReason::InTypeLiteralString,
            StringType::BasicMultiline => UnallowedCharacterReason::InTypeMultilineBasicString,
            StringType::LiteralMultiline => UnallowedCharacterReason::InTypeMultilineLiteralString,
        }
    }
}

pub open spec fn spec_quotes(kind: StringType) -> &'static str {
    match kind {
        StringType::Basic => "\"",
        StringType::Literal => "'",
        StringType::BasicMultiline => "\"\"\"",
        StringType::LiteralMultiline => "'''",
    }
}

pub open spec fn spec_to_multiline(kind: StringType) -> StringType {
    match kind {
        StringType::Basic => StringType::BasicMultiline,
        StringType::Literal => StringType::LiteralMultiline,
        same => same,
    }
}

pub open spec fn spec_reason(kind: StringType) -> UnallowedCharacterReason {
    match kind {
        StringType::Basic => UnallowedCharacterReason::InTypeBasicString,
        StringType::Literal => UnallowedCharacterReason::InTypeLiteralString,
        StringType::BasicMultiline => UnallowedCharacterReason::InTypeMultilineBasicString,
        StringType::LiteralMultiline => UnallowedCharacterReason::InTypeMultilineLiteralString,
    }
}

/// The character that the two-character escape `\c` stands for.
pub open spec fn spec_escaped(c: char) -> Option<char> {
    if c == 'b' {
        Some('\u{8}')
    } else if c == 't' {
        Some('\t')
    } else if c == 'n' {
        Some('\n')
    } else if c == 'f' {
        Some('\u{c}')
    } else if c == 'r' {
        Some('\r')
    } else if c == '"' {
        Some('"')
    } else if c == '\\' {
        Some('\\')
    } else {
        None
    }
}

/// The character that `\c` stands for, where `c` completes one of the
/// two-character escapes `\b \t \n \f \r \" \\`.
pub fn to_escaped_char(c: char) -> (r: Option<char>)
    ensures
        r == spec_escaped(c),
{
    if c == 'b' {
        Some('\u{8}')
    } else if c == 't' {
        Some('\t')
    } else if c == 'n' {
        Some('\n')
    } else if c == 'f' {
        Some('\u{c}')
    } else if c == 'r' {
        Some('\r')
    } else if c == '"' {
        Some('"')
    } else if c == '\\' {
        Some('\\')
    } else {
        None
    }
}

/// A character that the form `kind` refuses in its text.
pub open spec fn refused(kind: StringType, c: char) -> bool {
    match kind {
        StringType::Basic => is_special_control(c),
        StringType::Literal => is_control(c) && c != '\t',
        StringType::BasicMultiline => is_special_control(c) && !is_linebreak(c),
        StringType::LiteralMultiline => is_control(c) && c != '\t' && !is_linebreak(c),
    }
}

/// An upper bound on the value of a codepoint escape with `left` digits to go.
pub open spec fn codepoint_bound(left: u8) -> nat {
    if left >= 8 {
        1
    } else if left == 7 {
        0x10
    } else if left == 6 {
        0x100
    } else if left == 5 {
        0x1000
    } else if left == 4 {
        0x1_0000
    } else if left == 3 {
        0x10_0000
    } else if left == 2 {
        0x100_0000
    } else {
        0x1000_0000
    }
}

pub open spec fn escape_wf(esc: Escape) -> bool {
    match esc {
        Escape::Codepoint { left, value } => 1 <= left <= 8 && value < codepoint_bound(left),
        _ => true,
    }
}

/// `n` copies of `c`.
pub open spec fn repeat(c: char, n: nat) -> Seq<char> {
    Seq::new(n, |k: int| c)
}

/// The string body of form `kind` that starts at `t[i]`, in escape state
/// `esc`, with `quotes` delimiters seen in a row and `acc` read so far.
pub open spec fn scan_body(
    t: Seq<char>,
    i: nat,
    kind: StringType,
    esc: Escape,
    quotes: nat,
    acc: Seq<char>,
) -> Scan<Seq<char>>
    decreases t.len() - i, (if esc == Escape::LineSkip { 1int } else { 0int }),
{
    if i >= t.len() {
        if esc == Escape::Backslash || esc is Codepoint {
            fail(FormatError::UnknownEscapeSequence, i, t)
        } else {
            if kind.spec_is_multiline() {
                fail(FormatError::ExpectedSequence(spec_quotes(kind)), i, t)
            } else {
                fail(FormatError::ExpectedCharacter(kind.spec_quote()), i, t)
            }
        }
    } else {
        let c = t[i as int];
        match esc {
            Escape::Backslash => if is_linebreak(c) && kind == StringType::BasicMultiline {
                scan_body(t, i + 1, kind, Escape::LineSkip, 0, acc)
            } else if c == 'u' {
                scan_body(t, i + 1, kind, Escape::Codepoint { left: 4, value: 0 }, 0, acc)
            } else if c == 'U' {
                scan_body(t, i + 1, kind, Escape::Codepoint { left: 8, value: 0 }, 0, acc)
            } else {
                match spec_escaped(c) {
                    Some(e) => scan_body(t, i + 1, kind, Escape::Plain, 0, acc.push(e)),
                    None => fail(FormatError::UnknownEscapeSequence, i, t),
                }
            },
            Escape::Codepoint { left, value } => if !is_hex_digit(c) {
                fail(
                    FormatError::UnallowedCharacter(c, UnallowedCharacterReason::InUnicodeSequence),
                    i,
                    t,
                )
            } else {
                let v: nat = (value * 16 + hex_value(c)) as nat;
                if left > 1 {
                    scan_body(t, i + 1, kind, Escape::Codepoint { left: (left - 1) as u8, value: v as u32 }, 0, acc)
                } else if is_scalar(v) {
                    scan_body(t, i + 1, kind, Escape::Plain, 0, acc.push((v as u32) as char))
                } else {
                    fail(FormatError::UnknownEscapeSequence, i, t)
                }
            },
            Escape::LineSkip => if is_blank(c) || is_linebreak(c) {
                scan_body(t, i + 1, kind, Escape::LineSkip, 0, acc)
            } else {
                scan_body(t, i, kind, Escape::Plain, 0, acc)
            },
            Escape::Plain => if c == kind.spec_quote() {
                if !kind.spec_is_multiline() || quotes >= 2 {
                    Scan::Done { value: acc, end: i + 1 }
                } else {
                    scan_body(t, i + 1, kind, Escape::Plain, quotes + 1, acc)
                }
            } else {
                let flushed = acc + repeat(kind.spec_quote(), quotes);
                if !kind.spec_is_multiline() && is_linebreak(c) {
                    fail(FormatError::ExpectedCharacter(kind.spec_quote()), i, t)
                } else if c == '\\' && kind.spec_is_basic() {
                    scan_body(t, i + 1, kind, Escape::Backslash, 0, flushed)
                } else if refused(kind, c) {
                    fail(FormatError::UnallowedCharacter(c, spec_reason(kind)), i, t)
                } else {
                    scan_body(t, i + 1, kind, Escape::Plain, 0, flushed.push(c))
                }
            },
        }
    }
}

/// The character that reading the string value `t` handed out last: the
/// one after an empty `""` or `''`, else the closing delimiter or the
/// character at which an error was found.
pub open spec fn string_last_read(t: Seq<char>) -> Option<char> {
    if t.len() >= 2 && t[1] == t[0] && !(t.len() >= 3 && t[2] == t[0]) {
        char_at(t, 2)
    } else {
        last_read_closed(t, scan_string(t))
    }
}

/// A string value whose opening delimiter is `t[0]`: `"` opens a basic
/// string, anything else a literal one.
pub open spec fn scan_string(t: Seq<char>) -> Scan<Seq<char>> {
    let q = t[0];
    let kind = if q == '"' { StringType::Basic } else { StringType::Literal };
    if t.len() >= 2 && t[1] == q {
        if t.len() >= 3 && t[2] == q {
            let start: nat = if t.len() >= 4 && is_linebreak(t[3]) { 4 } else { 3 };
            scan_body(t, start, spec_to_multiline(kind), Escape::Plain, 0, Seq::empty())
        } else {
            Scan::Done { value: Seq::empty(), end: 2 }
        }
    } else {
        scan_body(t, 1, kind, Escape::Plain, 0, Seq::empty())
    }
}

/// Whether the form `kind` refuses `c` in its text.
pub fn is_refused(kind: StringType, c: char) -> (r: bool)
    ensures
        r == refused(kind, c),
{
    match kind {
        StringType::Basic => c.is_special_control(),
        StringType::Literal => is_control_char(c) && c != '\t',
        StringType::BasicMultiline => c.is_special_control() && !c.is_linebreak(),
        StringType::LiteralMultiline => is_control_char(c) && c != '\t' && !c.is_linebreak(),
    }
}

/// Reads the body of a string of form `kind`, from `t[start]` on, up to and
/// including its closing delimiter.
fn read_body<S: Supplier>(
    kind: StringType,
    input: &mut S,
    Ghost(t): Ghost<Seq<char>>,
    start: usize,
) -> (r: Result<(Vec<char>, usize), ParserError>)
    requires
        old(input).rest() == t.skip(start as int),
        start <= t.len() <= usize::MAX,
    ensures
        reads_until(r, scan_body(t, start as nat, kind, Escape::Plain, 0, Seq::empty())),
        final(input).last_spec() == last_read_closed(t, scan_body(t, start as nat, kind, Escape::Plain, 0, Seq::empty())),
        offset_within(r, t.len()),
        final(input).rest() == t.skip(
            scan_end(scan_body(t, start as nat, kind, Escape::Plain, 0, Seq::empty())) as int,
        ),
        scan_end(scan_body(t, start as nat, kind, Escape::Plain, 0, Seq::empty())) <= t.len(),
{
    let ghost target = scan_body(t, start as nat, kind, Escape::Plain, 0, Seq::empty());
    let q = kind.quote();
    let multiline = kind.is_multiline();
    let basic = matches!(kind, StringType::Basic | StringType::BasicMultiline);
    let mut i = start;
    let mut esc = Escape::Plain;
    let mut quotes: usize = 0;
    let mut acc: Vec<char> = Vec::new();
    proof {
        assert(acc@ =~= Seq::<char>::empty());
    }
    loop
        invariant
            i <= t.len() <= usize::MAX,
            input.rest() == t.skip(i as int),
            escape_wf(esc),
            quotes <= 2,
            esc != Escape::Plain ==> quotes == 0,
            q == kind.spec_quote(),
            multiline == kind.spec_is_multiline(),
            basic == kind.spec_is_basic(),
            scan_body(t, i as nat, kind, esc, quotes as nat, acc@) == target,
            target == scan_body(t, start as nat, kind, Escape::Plain, 0, Seq::empty()),
        decreases t.len() - i,
    {
        let next = input.get();
        let c = match next {
            None => {
                proof {
                    assert(i == t.len());
                    assert(input.rest() =~= t.skip(t.len() as int));
                }
                return match esc {
                    Escape::Backslash | Escape::Codepoint { .. } => ParserError::from(
                        FormatError::UnknownEscapeSequence,
                        i,
                    ),
                    _ => if multiline {
                        ParserError::from(FormatError::ExpectedSequence(kind.quotes()), i)
                    } else {
                        ParserError::from(FormatError::ExpectedCharacter(q), i)
                    },
                };
            },
            Some(c) => c,
        };
        proof {
            lemma_skip_next(t, i as int);
        }
        let j = i;
        i = i + 1;
        match esc {
            Escape::Backslash => {
                if c.is_linebreak() && matches!(kind, StringType::BasicMultiline) {
                    esc = Escape::LineSkip;
                } else if c == 'u' {
                    esc = Escape::Codepoint { left: 4, value: 0 };
                } else if c == 'U' {
                    esc = Escape::Codepoint { left: 8, value: 0 };
                } else {
                    match to_escaped_char(c) {
                        Some(e) => {
                            acc.push(e);
                            esc = Escape::Plain;
                        },
                        None => {
                            return ParserError::from(FormatError::UnknownEscapeSequence, j);
                        },
                    }
                }
            },
            Escape::Codepoint { left, value } => {
                match hex_digit_value(c) {
                    None => {
                        return ParserError::from(
                            FormatError::UnallowedCharacter(c, UnallowedCharacterReason::InUnicodeSequence),
                            j,
                        );
                    },
                    Some(d) => {
                        let v = value * 16 + d;
                        if left > 1 {
                            esc = Escape::Codepoint { left: left - 1, value: v };
                        } else {
                            match char_from_code(v) {
                                Some(ch) => {
                                    acc.push(ch);
                                    esc = Escape::Plain;
                                },
                                None => {
                                    return ParserError::from(FormatError::UnknownEscapeSequence, j);
                                },
                            }
                        }
                    },
                }
            },
            Escape::LineSkip | Escape::Plain => {
                if esc == Escape::LineSkip && (CharExt::is_whitespace(&c) || c.is_linebreak()) {
                    continue;
                }
                proof {
                    assert(scan_body(t, j as nat, kind, esc, quotes as nat, acc@) == scan_body(
                        t,
                        j as nat,
                        kind,
                        Escape::Plain,
                        quotes as nat,
                        acc@,
                    ));
                }
                esc = Escape::Plain;
                if c == q {
                    if !multiline || quotes >= 2 {
                        return Ok((acc, i));
                    }
                    quotes = quotes + 1;
                } else {
                    let ghost before = acc@;
                    if quotes >= 1 {
                        acc.push(q);
                    }
                    if quotes >= 2 {
                        acc.push(q);
                    }
                    proof {
                        assert(acc@ =~= before + repeat(q, quotes as nat));
                    }
                    quotes = 0;
                    if !multiline && c.is_linebreak() {
                        return ParserError::from(FormatError::ExpectedCharacter(q), j);
                    } else if c == ESCAPE_START && basic {
                        esc = Escape::Backslash;
                    } else if is_refused(kind, c) {
                        return ParserError::from(FormatError::UnallowedCharacter(c, kind.reason()), j);
                    } else {
                        acc.push(c);
                    }
                }
            },
        }
    }
}

/// The scanner of string values.
pub struct String;

impl String {
    /// Reads a string value whose opening delimiter `first` has just been
    /// read, then the rest of it from `input`, with the number of characters that it took.
    pub fn parse<S: Supplier>(first: char, input: &mut S) -> (r: Result<
        (std::string::String, usize),
        ParserError,
    >)
        requires
            old(input).rest().len() < usize::MAX,
        ensures
            reads_until(r, scan_string(seq![first] + old(input).rest())),
            final(input).last_spec() == string_last_read(seq![first] + old(input).rest()),
            offset_within(r, old(input).rest().len() + 1),
            end_within(r, old(input).rest().len() + 1),
            final(input).rest() == (seq![first] + old(input).rest()).skip(
                scan_end(scan_string(seq![first] + old(input).rest())) as int,
            ),
            scan_end(scan_string(seq![first] + old(input).rest())) <= (seq![first] + old(input).rest()).len(),
    {
        let ghost t = seq![first] + input.rest();
        proof {
            assert(t.skip(1) =~= input.rest());
        }
        let kind = if first == DOUBLE_QUOTE {
            StringType::Basic
        } else {
            StringType::Literal
        };
        let start: usize;
        let mut kind = kind;
        match input.get() {
            None => {
                proof {
                    assert(input.rest() =~= t.skip(1));
                }
                start = 1;
            },
            Some(c1) => {
                proof {
                    lemma_skip_next(t, 1);
                }
                if c1 != first {
                    input.unread(c1);
                    proof {
                        lemma_skip_back(t, 1);
                    }
                    start = 1;
                } else {
                    match input.get() {
                        None => {
                            proof {
                                assert(input.rest() =~= t.skip(2));
                            }
                            return Ok((std::string::String::new(), 2));
                        },
                        Some(c2) => {
                            proof {
                                lemma_skip_next(t, 2);
                            }
                            if c2 != first {
                                input.unread(c2);
                                proof {
                                    lemma_skip_back(t, 2);
                                }
                                return Ok((std::string::String::new(), 2));
                            }
                            kind = kind.to_multiline();
                            match input.get() {
                                None => {
                                    proof {
                                        assert(input.rest() =~= t.skip(3));
                                    }
                                    start = 3;
                                },
                                Some(c3) => {
                                    proof {
                                        lemma_skip_next(t, 3);
                                    }
                                    if c3.is_linebreak() {
                                        start = 4;
                                    } else {
                                        input.unread(c3);
                                        proof {
                                            lemma_skip_back(t, 3);
                                        }
                                        start = 3;
                                    }
                                },
                            }
                        },
                    }
                }
            },
        }
        match read_body(kind, input, Ghost(t), start) {
            Ok((chars, end)) => Ok((string_from_chars(&chars), end)),
            Err(e) => Err(e),
        }
    }
}

impl TypeParser<std::string::String> for String {
    open spec fn scan(t: Seq<char>) -> Scan<Seq<char>> {
        scan_string(t)
    }

    fn parse<S: Supplier>(first: char, input: &mut S) -> (r: Result<(std::string::String, usize), ParserError>) {
        String::parse(first, input)
    }
}

} // verus!
