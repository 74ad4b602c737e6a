use vstd::prelude::*;

verus! {

pub const COMMENT_START: char = '#';

pub const WHITESPACE_TAB: char = '\t';

pub const WHITESPACE_SPACE: char = ' ';

pub const ESCAPE_START: char = '\\';

pub const DOUBLE_QUOTE: char = '"';

pub const SINGLE_QUOTE: char = '\'';

pub const NEWLINE_LF: char = '\n';

pub const NEWLINE_CR: char = '\r';

/// A line terminator: line feed or carriage return.
pub open spec fn is_linebreak(c: char) -> bool {
    c == '\n' || c == '\r'
}

/// Blank space inside a line: space or tab.
pub open spec fn is_blank(c: char) -> bool {
    c == ' ' || c == '\t'
}

/// The control characters that may not stand in a basic string or a comment:
/// U+0000 to U+0008, U+000A to U+001F and U+007F (everything of C0 but tab, and DEL).
pub open spec fn is_special_control(c: char) -> bool {
    (c as u32) <= 0x08 || (0x0a <= (c as u32) && (c as u32) <= 0x1f) || (c as u32) == 0x7f
}

/// A character of the Unicode general category Cc: U+0000 to U+001F and U+007F to U+009F.
pub open spec fn is_control(c: char) -> bool {
    (c as u32) <= 0x1f || (0x7f <= (c as u32) && (c as u32) <= 0x9f)
}

pub open spec fn is_digit(c: char) -> bool {
    '0' <= c && c <= '9'
}

pub open spec fn digit_value(c: char) -> nat {
    (c as u32 - '0' as u32) as nat
}

pub open spec fn is_hex_digit(c: char) -> bool {
    ('0' <= c && c <= '9') || ('a' <= c && c <= 'f') || ('A' <= c && c <= 'F')
}

pub open spec fn hex_value(c: char) -> nat {
    if '0' <= c && c <= '9' {
        (c as u32 - '0' as u32) as nat
    } else if 'a' <= c && c <= 'f' {
        (c as u32 - 'a' as u32 + 10) as nat
    } else {
        (c as u32 - 'A' as u32 + 10) as nat
    }
}

/// Classification of the characters that the scanners care about.
pub trait CharExt {
    /// The character that the value stands for.
    spec fn as_char(&self) -> char;

    fn is_linebreak(&self) -> (r: bool)
        ensures
            r == is_linebreak(self.as_char()),
    ;

    fn is_special_control(&self) -> (r: bool)
        ensures
            r == is_special_control(self.as_char()),
    ;

    fn is_whitespace(&self) -> (r: bool)
        ensures
            r == is_blank(self.as_char()),
    ;

    fn is_comment_start(&self) -> (r: bool)
        ensures
            r == (self.as_char() == COMMENT_START),
    ;
}

impl CharExt for char {
    open spec fn as_char(&self) -> char {
        *self
    }

    fn is_linebreak(&self) -> (r: bool) {
        *self == NEWLINE_LF || *self == NEWLINE_CR
    }

    fn is_special_control(&self) -> (r: bool) {
        let code = *self as u32;
        code <= 0x08 || (0x0a <= code && code <= 0x1f) || code == 0x7f
    }

    fn is_whitespace(&self) -> (r: bool) {
        *self == WHITESPACE_SPACE || *self == WHITESPACE_TAB
    }

    fn is_comment_start(&self) -> (r: bool) {
        *self == COMMENT_START
    }
}

pub fn is_control_char(c: char) -> (r: bool)
    ensures
        r == is_control(c),
{
    let code = c as u32;
    code <= 0x1f || (0x7f <= code && code <= 0x9f)
}

pub fn is_digit_char(c: char) -> (r: bool)
    ensures
        r == is_digit(c),
{
    '0' <= c && c <= '9'
}

/// The value of a hexadecimal digit, if `c` is one.
pub fn hex_digit_value(c: char) -> (r: Option<u32>)
    ensures
        r is Some <==> is_hex_digit(c),
        r matches Some(v) ==> v as nat == hex_value(c) && v < 16,
{
    if '0' <= c && c <= '9' {
        Some(c as u32 - '0' as u32)
    } else if 'a' <= c && c <= 'f' {
        Some(c as u32 - 'a' as u32 + 10)
    } else if 'A' <= c && c <= 'F' {
        Some(c as u32 - 'A' as u32 + 10)
    } else {
        None
    }
}

} // verus!
