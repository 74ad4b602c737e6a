use vstd::prelude::*;
use crate::text::{push_str, string_from_chars};

verus! {

/// The syntactic context in which a character was refused.
#[derive(Debug, Clone, Copy, PartialEq, Eq, Structural)]
pub enum UnallowedCharacterReason {
    InComment,
    InTypeNumber,
    InTypeBoolean,
    InTypeBasicString,
    InTypeMultilineBasicString,
    InTypeMultilineLiteralString,
    InTypeLiteralString,
    InUnicodeSequence,
    InTypeDate,
    InTypeTime,
    InTypeDateTime,
    InKey,
}

/// What went wrong while reading a value.
#[derive(Debug, Clone, Copy, PartialEq, Eq)]
pub enum FormatError {
    UnallowedCharacter(char, UnallowedCharacterReason),
    ExpectedCharacter(char),
    ExpectedSequence(&'static str),
    UnknownEscapeSequence,
    EmptyValue,
    UnexpectedEnd,
    Unknown(&'static str),
}

/// A format error together with the number of characters read, from the
/// start of the parse, before the place where it was found.
#[derive(Debug, Clone, Copy, PartialEq, Eq)]
pub struct ParserError {
    pub error: FormatError,
    pub offset: usize,
}

impl ParserError {
    /// The failure `error` at `offset`.
    pub fn from<T>(error: FormatError, offset: usize) -> (r: Result<T, ParserError>)
        ensures
            r == Err::<T, ParserError>(ParserError { error, offset }),
    {
        Err(ParserError { error, offset })
    }

    /// Re-wraps an error that an inner call reported, moving it by the
    /// `consumed` characters that were read before that call began.
    pub fn extend<T>(source: ParserError, consumed: usize) -> (r: Result<T, ParserError>)
        requires
            source.offset + consumed <= usize::MAX,
        ensures
            r == Err::<T, ParserError>(
                ParserError { error: source.error, offset: (source.offset + consumed) as usize },
            ),
    {
        Err(ParserError { error: source.error, offset: source.offset + consumed })
    }
}

/// How a refused character's context reads in a message.
pub open spec fn reason_text(r: UnallowedCharacterReason) -> Seq<char> {
    match r {
        UnallowedCharacterReason::InComment => "in a comment"@,
        UnallowedCharacterReason::InTypeNumber => "in a number"@,
        UnallowedCharacterReason::InTypeBoolean => "in a boolean"@,
        UnallowedCharacterReason::InTypeBasicString => "in a basic string"@,
        UnallowedCharacterReason::InTypeMultilineBasicString => "in a multi-line basic string"@,
        UnallowedCharacterReason::InTypeMultilineLiteralString => "in a multi-line literal string"@,
        UnallowedCharacterReason::InTypeLiteralString => "in a literal string"@,
        UnallowedCharacterReason::InUnicodeSequence => "in a unicode escape sequence"@,
        UnallowedCharacterReason::InTypeDate => "in a date value"@,
        UnallowedCharacterReason::InTypeTime => "in a time value"@,
        UnallowedCharacterReason::InTypeDateTime => "in a date-time value"@,
        UnallowedCharacterReason::InKey => "in key"@,
    }
}

/// How a format error reads.
pub open spec fn describe(e: FormatError) -> Seq<char> {
    match e {
        FormatError::UnallowedCharacter(c, r) => "unexpected character `"@ + seq![c] + "` "@
            + reason_text(r),
        FormatError::ExpectedCharacter(c) => "expected character `"@ + seq![c] + "`"@,
        FormatError::ExpectedSequence(p) => "expected `"@ + p@ + "`"@,
        FormatError::UnknownEscapeSequence => "unknown escape sequence"@,
        FormatError::EmptyValue => "empty value"@,
        FormatError::UnexpectedEnd => "unexpected end of file"@,
        FormatError::Unknown(m) => "unknown error: "@ + m@,
    }
}

/// `line` without the line terminators at its end.
pub open spec fn without_terminator(line: Seq<char>) -> Seq<char>
    decreases line.len(),
{
    if line.len() > 0 && (line.last() == '\n' || line.last() == '\r') {
        without_terminator(line.drop_last())
    } else {
        line
    }
}

/// The report of `e` under the source line `line`: the line, a caret under
/// the character at the error's offset, and the message.
pub open spec fn report(line: Seq<char>, e: ParserError) -> Seq<char> {
    without_terminator(line) + seq!['\n'] + Seq::new(e.offset as nat, |k: int| ' ') + seq!['^', '\n']
        + "Failed to parse value: "@ + describe(e.error)
}

impl UnallowedCharacterReason {
    /// The context as a message names it.
    pub fn text(&self) -> (r: &'static str)
        ensures
            r@ == reason_text(*self),
    {
        match self {
            UnallowedCharacterReason::InComment => "in a comment",
            UnallowedCharacterReason::InTypeNumber => "in a number",
            UnallowedCharacterReason::InTypeBoolean => "in a boolean",
            UnallowedCharacterReason::InTypeBasicString => "in a basic string",
            UnallowedCharacterReason::InTypeMultilineBasicString => "in a multi-line basic string",
            UnallowedCharacterReason::InTypeMultilineLiteralString => "in a multi-line literal string",
            UnallowedCharacterReason::InTypeLiteralString => "in a literal string",
            UnallowedCharacterReason::InUnicodeSequence => "in a unicode escape sequence",
            UnallowedCharacterReason::InTypeDate => "in a date value",
            UnallowedCharacterReason::InTypeTime => "in a time value",
            UnallowedCharacterReason::InTypeDateTime => "in a date-time value",
            UnallowedCharacterReason::InKey => "in key",
        }
    }
}

impl FormatError {
    fn describe_into(&self, out: &mut Vec<char>)
        ensures
            final(out)@ == old(out)@ + describe(*self),
    {
        match self {
            FormatError::UnallowedCharacter(c, r) => {
                push_str(out, "unexpected character `");
                out.push(*c);
                push_str(out, "` ");
                push_str(out, r.text());
            },
            FormatError::ExpectedCharacter(c) => {
                push_str(out, "expected character `");
                out.push(*c);
                push_str(out, "`");
            },
            FormatError::ExpectedSequence(p) => {
                push_str(out, "expected `");
                push_str(out, p);
                push_str(out, "`");
            },
            FormatError::UnknownEscapeSequence => push_str(out, "unknown escape sequence"),
            FormatError::EmptyValue => push_str(out, "empty value"),
            FormatError::UnexpectedEnd => push_str(out, "unexpected end of file"),
            FormatError::Unknown(m) => {
                push_str(out, "unknown error: ");
                push_str(out, m);
            },
        }
        proof {
            assert(final(out)@ =~= old(out)@ + describe(*self));
        }
    }

    /// How this error reads.
    pub fn description(&self) -> (r: std::string::String)
        ensures
            r@ == describe(*self),
    {
        let mut out: Vec<char> = Vec::new();
        self.describe_into(&mut out);
        proof {
            assert(out@ =~= describe(*self));
        }
        string_from_chars(&out)
    }
}

impl ParserError {
    /// The report of this error under its source line `line`: the line without
    /// its terminator, a line of `offset` spaces and a caret, and the message.
    pub fn explain(&self, line: &str) -> (r: std::string::String)
        ensures
            r@ == report(line@, *self),
    {
        let chars = crate::text::chars_of(line);
        let mut n = chars.len();
        proof {
            assert(chars@.take(n as int) =~= line@);
        }
        while n > 0 && (chars[n - 1] == '\n' || chars[n - 1] == '\r')
            invariant
                n <= chars.len(),
                without_terminator(chars@.take(n as int)) == without_terminator(line@),
            decreases n,
        {
            proof {
                assert(chars@.take(n as int).drop_last() =~= chars@.take(n - 1));
            }
            n = n - 1;
        }
        let mut out: Vec<char> = Vec::new();
        let mut k: usize = 0;
        while k < n
            invariant
                k <= n <= chars.len(),
                out@ == chars@.take(k as int),
            decreases n - k,
        {
            out.push(chars[k]);
            proof {
                assert(chars@.take(k + 1 as int) =~= chars@.take(k as int).push(chars@[k as int]));
            }
            k = k + 1;
        }
        proof {
            assert(without_terminator(chars@.take(n as int)) == chars@.take(n as int));
            assert(out@ =~= without_terminator(line@));
        }
        out.push('\n');
        let ghost head = out@;
        let mut spaces: usize = 0;
        while spaces < self.offset
            invariant
                spaces <= self.offset,
                out@ == head + Seq::new(spaces as nat, |j: int| ' '),
            decreases self.offset - spaces,
        {
            out.push(' ');
            proof {
                assert(out@ =~= head + Seq::new((spaces + 1) as nat, |j: int| ' '));
            }
            spaces = spaces + 1;
        }
        out.push('^');
        out.push('\n');
        push_str(&mut out, "Failed to parse value: ");
        self.error.describe_into(&mut out);
        proof {
            assert(out@ =~= report(line@, *self));
        }
        string_from_chars(&out)
    }
}

/// The line of `text` that holds index `at`: where it begins, just after
/// the line feed before `at` (or at 0), and where it ends, at the next line
/// feed from `at` on (or at the end of `text`).
pub fn line_around(text: &Vec<char>, at: usize) -> (r: (usize, usize))
    requires
        at <= text.len(),
    ensures
        r.0 <= at <= r.1 <= text.len(),
        r.0 == 0 || text@[r.0 - 1] == '\n',
        forall|k: int| r.0 <= k < at ==> text@[k] != '\n',
        forall|k: int| at <= k < r.1 ==> text@[k] != '\n',
        r.1 == text.len() || text@[r.1 as int] == '\n',
{
    let mut start = at;
    while start > 0 && text[start - 1] != '\n'
        invariant
            start <= at <= text.len(),
            forall|k: int| start <= k < at ==> text@[k] != '\n',
        decreases start,
    {
        start = start - 1;
    }
    let mut end = at;
    while end < text.len() && text[end] != '\n'
        invariant
            at <= end <= text.len(),
            forall|k: int| at <= k < end ==> text@[k] != '\n',
        decreases text.len() - end,
    {
        end = end + 1;
    }
    (start, end)
}

} // verus!
