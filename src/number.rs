use vstd::prelude::*;
use crate::chars::{digit_value, is_blank, is_digit, is_linebreak, is_digit_char, CharExt};
use crate::errors::{FormatError, ParserError, UnallowedCharacterReason};
use crate::reader::Supplier;
use crate::scan::{last_read_ahead, TypeParser, end_within, offset_within, fail, lemma_skip_back, lemma_skip_next, reads_until, scan_end, Scan};
use crate::text::string_from_chars;

verus! {

/// A number value: an integer, or a decimal fraction kept as its text.
#[derive(Debug, Clone, PartialEq, Eq)]
pub enum NumberType {
    Integer(i64),
    Float(std::string::String),
}

/// What a [`NumberType`] stands for.
pub enum NumberModel {
    Integer(i64),
    Float(Seq<char>),
}

impl View for NumberType {
    type V = NumberModel;

    open spec fn view(&self) -> NumberModel {
        match self {
            NumberType::Integer(v) => NumberModel::Integer(*v),
            NumberType::Float(s) => NumberModel::Float(s@),
        }
    }
}

/// A character after which no value goes on: blank, line break or comment start.
pub open spec fn is_terminator(c: char) -> bool {
    is_blank(c) || is_linebreak(c) || c == '#'
}

pub fn is_terminator_char(c: char) -> (r: bool)
    ensures
        r == is_terminator(c),
{
    CharExt::is_whitespace(&c) || c.is_linebreak() || c.is_comment_start()
}

pub open spec fn is_sign(c: char) -> bool {
    c == '+' || c == '-'
}

/// The value of a run of decimal digits.
pub open spec fn digits_value(ds: Seq<char>) -> nat
    decreases ds.len(),
{
    if ds.len() == 0 {
        0
    } else {
        digits_value(ds.drop_last()) * 10 + digit_value(ds.last())
    }
}

pub open spec fn all_digits(ds: Seq<char>) -> bool {
    forall|k: int| 0 <= k < ds.len() ==> is_digit(#[trigger] ds[k])
}

/// `text` without its leading sign, if it has one.
pub open spec fn unsigned_part(text: Seq<char>) -> Seq<char> {
    if text.len() > 0 && is_sign(text[0]) {
        text.skip(1)
    } else {
        text
    }
}

pub const INT_MAX: u64 = 0x7fff_ffff_ffff_ffff;

/// The integer that `text` writes in decimal, with an optional sign, or the
/// reason why it writes none that fits in 64 bits.
pub open spec fn integer_value(text: Seq<char>) -> Result<i64, FormatError> {
    let ds = unsigned_part(text);
    if text.len() == 0 {
        Err(FormatError::Unknown("cannot parse integer from empty string"))
    } else if ds.len() == 0 || !all_digits(ds) {
        Err(FormatError::Unknown("invalid digit found in string"))
    } else if text[0] == '-' {
        if digits_value(ds) <= INT_MAX + 1 {
            Ok((0 - digits_value(ds)) as i64)
        } else {
            Err(FormatError::Unknown("number too small to fit in target type"))
        }
    } else {
        if digits_value(ds) <= INT_MAX {
            Ok(digits_value(ds) as i64)
        } else {
            Err(FormatError::Unknown("number too large to fit in target type"))
        }
    }
}

/// A decimal fraction: an optional sign, then digits with at most one point
/// among them, and at least one digit.
pub open spec fn is_decimal(text: Seq<char>) -> bool {
    let body = unsigned_part(text);
    &&& exists|k: int| 0 <= k < body.len() && is_digit(#[trigger] body[k])
    &&& forall|k: int| 0 <= k < body.len() ==> is_digit(#[trigger] body[k]) || body[k] == '.'
    &&& forall|k: int, l: int|
        #![trigger body[k], body[l]]
        0 <= k < l < body.len() && body[k] == '.' ==> body[l] != '.'
}

/// The conversion of integer text.
pub struct Integer;

impl Integer {
    /// The integer that `text` writes in decimal.
    pub fn parse(text: &Vec<char>) -> (r: Result<i64, FormatError>)
        ensures
            r == integer_value(text@),
    {
        if text.len() == 0 {
            return Err(FormatError::Unknown("cannot parse integer from empty string"));
        }
        let negative = text[0] == '-';
        let start: usize = if text[0] == '+' || text[0] == '-' { 1 } else { 0 };
        let ghost ds = unsigned_part(text@);
        proof {
            assert(ds =~= text@.skip(start as int));
        }
        if start == text.len() {
            return Err(FormatError::Unknown("invalid digit found in string"));
        }
        let mut k: usize = start;
        let mut magnitude: u64 = 0;
        let mut too_big = false;
        while k < text.len()
            invariant
                start <= k <= text.len(),
                ds == text@.skip(start as int),
                ds == unsigned_part(text@),
                negative == (text@[0] == '-'),
                text@.len() > 0,
                all_digits(ds.take(k - start)),
                !too_big ==> magnitude == digits_value(ds.take(k - start)) && magnitude <= INT_MAX + 1,
                too_big ==> digits_value(ds.take(k - start)) > INT_MAX + 1,
            decreases text.len() - k,
        {
            let c = text[k];
            let ghost before = ds.take(k - start);
            proof {
                assert(ds.take(k + 1 - start).drop_last() =~= before);
                assert(ds.take(k + 1 - start).last() == c);
            }
            if !is_digit_char(c) {
                proof {
                    assert(ds[k - start] == c);
                    assert(!is_digit(ds[k - start]));
                    assert(!all_digits(ds));
                }
                return Err(FormatError::Unknown("invalid digit found in string"));
            }
            proof {
                assert(all_digits(ds.take(k + 1 - start)));
            }
            if !too_big {
                let d = (c as u32 - '0' as u32) as u64;
                if magnitude > (INT_MAX + 1 - d) / 10 {
                    too_big = true;
                } else {
                    magnitude = magnitude * 10 + d;
                }
            }
            k = k + 1;
        }
        proof {
            assert(ds.take(k - start) =~= ds);
        }
        if negative {
            if too_big {
                Err(FormatError::Unknown("number too small to fit in target type"))
            } else if magnitude == INT_MAX + 1 {
                Ok(i64::MIN)
            } else {
                Ok(0 - magnitude as i64)
            }
        } else {
            if too_big || magnitude > INT_MAX {
                Err(FormatError::Unknown("number too large to fit in target type"))
            } else {
                Ok(magnitude as i64)
            }
        }
    }
}

/// The conversion of decimal fraction text.
pub struct Float;

impl Float {
    /// The text itself, where it writes a decimal fraction.
    pub fn parse(text: &Vec<char>) -> (r: Result<std::string::String, FormatError>)
        ensures
            is_decimal(text@) ==> (r matches Ok(s) && s@ == text@),
            !is_decimal(text@) ==> r == Err::<std::string::String, FormatError>(
                FormatError::Unknown("invalid float literal"),
            ),
    {
        let start: usize = if text.len() > 0 && (text[0] == '+' || text[0] == '-') { 1 } else { 0 };
        let ghost body = unsigned_part(text@);
        proof {
            assert(body =~= text@.skip(start as int));
        }
        let mut k: usize = start;
        let mut dot_seen = false;
        let mut digit_seen = false;
        while k < text.len()
            invariant
                start <= k <= text.len(),
                body == text@.skip(start as int),
                body == unsigned_part(text@),
                forall|m: int| 0 <= m < k - start ==> is_digit(#[trigger] body[m]) || body[m] == '.',
                forall|m: int, l: int|
                    #![trigger body[m], body[l]]
                    0 <= m < l < k - start && body[m] == '.' ==> body[l] != '.',
                dot_seen <==> exists|m: int| 0 <= m < k - start && #[trigger] body[m] == '.',
                digit_seen <==> exists|m: int| 0 <= m < k - start && is_digit(#[trigger] body[m]),
            decreases text.len() - k,
        {
            let c = text[k];
            let ghost m = k - start;
            assert(body[m] == c);
            if is_digit_char(c) {
                digit_seen = true;
            } else if c == '.' && !dot_seen {
                dot_seen = true;
            } else {
                proof {
                    if c == '.' {
                        let m0 = choose|m0: int| 0 <= m0 < k - start && #[trigger] body[m0] == '.';
                        assert(body[m0] == '.' && body[m] == '.');
                    } else {
                        assert(!(is_digit(body[m]) || body[m] == '.'));
                    }
                    assert(!is_decimal(text@));
                }
                return Err(FormatError::Unknown("invalid float literal"));
            }
            k = k + 1;
        }
        if digit_seen {
            proof {
                assert(body.len() == k - start);
            }
            Ok(string_from_chars(text))
        } else {
            proof {
                assert(body.len() == k - start);
                assert(!is_decimal(text@));
            }
            Err(FormatError::Unknown("invalid float literal"))
        }
    }
}

/// The number that the token `text` writes: a decimal fraction where it holds
/// a point, else an integer.
pub open spec fn number_value(text: Seq<char>, dotted: bool) -> Result<NumberModel, FormatError> {
    if dotted {
        if is_decimal(text) {
            Ok(NumberModel::Float(text))
        } else {
            Err(FormatError::Unknown("invalid float literal"))
        }
    } else {
        match integer_value(text) {
            Ok(v) => Ok(NumberModel::Integer(v)),
            Err(e) => Err(e),
        }
    }
}

/// A number token from `t[i]` on, `text` having been read before it and
/// `dotted` telling whether that holds a point. A sign may only come first;
/// the token ends before a blank, a line break, a comment start or the end.
pub open spec fn scan_number_from(t: Seq<char>, i: nat, text: Seq<char>, dotted: bool) -> Scan<
    NumberModel,
>
    decreases t.len() - i,
{
    if i >= t.len() || is_terminator(t[i as int]) {
        match number_value(text, dotted) {
            Ok(v) => Scan::Done { value: v, end: i },
            Err(e) => fail(e, i, t),
        }
    } else {
        let c = t[i as int];
        if c == '.' && !dotted {
            scan_number_from(t, i + 1, text.push(c), true)
        } else if is_digit(c) || (is_sign(c) && i == 0) {
            scan_number_from(t, i + 1, text.push(c), dotted)
        } else {
            fail(FormatError::UnallowedCharacter(c, UnallowedCharacterReason::InTypeNumber), i, t)
        }
    }
}

/// A number value that begins at `t[0]`.
pub open spec fn scan_number(t: Seq<char>) -> Scan<NumberModel> {
    scan_number_from(t, 0, Seq::empty(), false)
}

fn number_of(text: &Vec<char>, dotted: bool) -> (r: Result<NumberType, FormatError>)
    ensures
        r is Ok <==> number_value(text@, dotted) is Ok,
        r matches Ok(n) ==> number_value(text@, dotted) == Ok::<NumberModel, FormatError>(n@),
        r matches Err(e) ==> number_value(text@, dotted) == Err::<NumberModel, FormatError>(e),
{
    if dotted {
        match Float::parse(text) {
            Ok(s) => Ok(NumberType::Float(s)),
            Err(e) => Err(e),
        }
    } else {
        match Integer::parse(text) {
            Ok(v) => Ok(NumberType::Integer(v)),
            Err(e) => Err(e),
        }
    }
}

/// The scanner of number values.
pub struct Number;

impl Number {
    /// Reads a number value whose first character `first` has just been read,
    /// then the rest of it from `input`.
    /// Gives the number of characters that it took; the character that ends
    /// the number is left to be read.
    pub fn parse<S: Supplier>(first: char, input: &mut S) -> (r: Result<
        (NumberType, usize),
        ParserError,
    >)
        requires
            old(input).rest().len() < usize::MAX,
        ensures
            reads_until(r, scan_number(seq![first] + old(input).rest())),
            final(input).last_spec() == last_read_ahead(
                seq![first] + old(input).rest(),
                scan_number(seq![first] + old(input).rest()),
            ),
            offset_within(r, old(input).rest().len() + 1),
            end_within(r, old(input).rest().len() + 1),
            final(input).rest() == (seq![first] + old(input).rest()).skip(
                scan_end(scan_number(seq![first] + old(input).rest())) as int,
            ),
            scan_end(scan_number(seq![first] + old(input).rest())) <= (seq![first] + old(input).rest()).len(),
    {
        let ghost t = seq![first] + input.rest();
        input.unread(first);
        proof {
            assert(input.rest() =~= t.skip(0));
        }
        let ghost target = scan_number(t);
        let mut text: Vec<char> = Vec::new();
        let mut dotted = false;
        let mut i: usize = 0;
        proof {
            assert(text@ =~= Seq::<char>::empty());
        }
        loop
            invariant
                i <= t.len() <= usize::MAX,
                input.rest() == t.skip(i as int),
                scan_number_from(t, i as nat, text@, dotted) == target,
                target == scan_number(t),
                t == seq![first] + old(input).rest(),
            decreases t.len() - i,
        {
            let c = match input.get() {
                None => {
                    proof {
                        assert(i == t.len());
                        assert(input.rest() =~= t.skip(t.len() as int));
                    }
                    return match number_of(&text, dotted) {
                        Ok(n) => Ok((n, i)),
                        Err(e) => ParserError::from(e, i),
                    };
                },
                Some(c) => c,
            };
            proof {
                lemma_skip_next(t, i as int);
            }
            if is_terminator_char(c) {
                return match number_of(&text, dotted) {
                    Ok(n) => {
                        input.unread(c);
                        proof {
                            lemma_skip_back(t, i as int);
                        }
                        Ok((n, i))
                    },
                    Err(e) => ParserError::from(e, i),
                };
            }
            if c == '.' && !dotted {
                dotted = true;
            } else if !(is_digit_char(c) || ((c == '+' || c == '-') && i == 0)) {
                return ParserError::from(
                    FormatError::UnallowedCharacter(c, UnallowedCharacterReason::InTypeNumber),
                    i,
                );
            }
            text.push(c);
            i = i + 1;
        }
    }
}

impl TypeParser<NumberType> for Number {
    open spec fn scan(t: Seq<char>) -> Scan<NumberModel> {
        scan_number(t)
    }

    fn parse<S: Supplier>(first: char, input: &mut S) -> (r: Result<(NumberType, usize), ParserError>) {
        Number::parse(first, input)
    }
}

} // verus!
