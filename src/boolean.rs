use vstd::prelude::*;
use crate::errors::{FormatError, ParserError, UnallowedCharacterReason};
use crate::number::{is_terminator, is_terminator_char};
use crate::reader::Supplier;
use crate::scan::{last_read_ahead, TypeParser, end_within, offset_within, fail, lemma_skip_back, lemma_skip_next, reads_until, scan_end, Scan};

verus! {

/// The letters of `true` and `false`.
pub open spec fn is_boolean_letter(c: char) -> bool {
    c == 't' || c == 'r' || c == 'u' || c == 'e' || c == 'f' || c == 'a' || c == 'l' || c == 's'
}

/// The boolean that the token `text` writes.
pub open spec fn boolean_value(text: Seq<char>) -> Result<bool, FormatError> {
    if text == seq!['t', 'r', 'u', 'e'] {
        Ok(true)
    } else if text == seq!['f', 'a', 'l', 's', 'e'] {
        Ok(false)
    } else {
        Err(FormatError::Unknown("provided string was not `true` or `false`"))
    }
}

/// A boolean token from `t[i]` on, `text` having been read before it.
pub open spec fn scan_boolean_from(t: Seq<char>, i: nat, text: Seq<char>) -> Scan<bool>
    decreases t.len() - i,
{
    if i >= t.len() || is_terminator(t[i as int]) {
        match boolean_value(text) {
            Ok(v) => Scan::Done { value: v, end: i },
            Err(e) => fail(e, i, t),
        }
    } else if is_boolean_letter(t[i as int]) {
        scan_boolean_from(t, i + 1, text.push(t[i as int]))
    } else {
        fail(
            FormatError::UnallowedCharacter(t[i as int], UnallowedCharacterReason::InTypeBoolean),
            i,
            t,
        )
    }
}

/// A boolean value that begins at `t[0]`.
pub open spec fn scan_boolean(t: Seq<char>) -> Scan<bool> {
    scan_boolean_from(t, 0, Seq::empty())
}

fn boolean_of(text: &Vec<char>) -> (r: Result<bool, FormatError>)
    ensures
        r == boolean_value(text@),
{
    if text.len() == 4 && text[0] == 't' && text[1] == 'r' && text[2] == 'u' && text[3] == 'e' {
        proof {
            assert(text@ =~= seq!['t', 'r', 'u', 'e']);
        }
        Ok(true)
    } else if text.len() == 5 && text[0] == 'f' && text[1] == 'a' && text[2] == 'l' && text[3] == 's'
        && text[4] == 'e' {
        proof {
            assert(text@ =~= seq!['f', 'a', 'l', 's', 'e']);
        }
        Ok(false)
    } else {
        proof {
            if text@ == seq!['t', 'r', 'u', 'e'] {
                assert(text@[3] == 'e');
            }
            if text@ == seq!['f', 'a', 'l', 's', 'e'] {
                assert(text@[4] == 'e');
            }
        }
        Err(FormatError::Unknown("provided string was not `true` or `false`"))
    }
}

/// The scanner of boolean values.
pub struct Boolean;

impl Boolean {
    /// Reads a boolean value whose first character `first` has just been read,
    /// then the rest of it from `input`.
    /// Gives the number of characters that it took; the character that ends
    /// the value is left to be read.
    pub fn parse<S: Supplier>(first: char, input: &mut S) -> (r: Result<
        (bool, usize),
        ParserError,
    >)
        requires
            old(input).rest().len() < usize::MAX,
        ensures
            reads_until(r, scan_boolean(seq![first] + old(input).rest())),
            final(input).last_spec() == last_read_ahead(
                seq![first] + old(input).rest(),
                scan_boolean(seq![first] + old(input).rest()),
            ),
            offset_within(r, old(input).rest().len() + 1),
            end_within(r, old(input).rest().len() + 1),
            final(input).rest() == (seq![first] + old(input).rest()).skip(
                scan_end(scan_boolean(seq![first] + old(input).rest())) as int,
            ),
            scan_end(scan_boolean(seq![first] + old(input).rest())) <= (seq![first] + old(input).rest()).len(),
    {
        let ghost t = seq![first] + input.rest();
        input.unread(first);
        proof {
            assert(input.rest() =~= t.skip(0));
        }
        let ghost target = scan_boolean(t);
        let mut text: Vec<char> = Vec::new();
        let mut i: usize = 0;
        proof {
            assert(text@ =~= Seq::<char>::empty());
        }
        loop
            invariant
                i <= t.len() <= usize::MAX,
                input.rest() == t.skip(i as int),
                scan_boolean_from(t, i as nat, text@) == target,
                target == scan_boolean(t),
                t == seq![first] + old(input).rest(),
            decreases t.len() - i,
        {
            let c = match input.get() {
                None => {
                    proof {
                        assert(i == t.len());
                        assert(input.rest() =~= t.skip(t.len() as int));
                    }
                    return match boolean_of(&text) {
                        Ok(v) => Ok((v, i)),
                        Err(e) => ParserError::from(e, i),
                    };
                },
                Some(c) => c,
            };
            proof {
                lemma_skip_next(t, i as int);
            }
            if is_terminator_char(c) {
                return match boolean_of(&text) {
                    Ok(v) => {
                        input.unread(c);
                        proof {
                            lemma_skip_back(t, i as int);
                        }
                        Ok((v, i))
                    },
                    Err(e) => ParserError::from(e, i),
                };
            }
            if !(c == 't' || c == 'r' || c == 'u' || c == 'e' || c == 'f' || c == 'a' || c == 'l'
                || c == 's') {
                return ParserError::from(
                    FormatError::UnallowedCharacter(c, UnallowedCharacterReason::InTypeBoolean),
                    i,
                );
            }
            text.push(c);
            i = i + 1;
        }
    }
}

impl TypeParser<bool> for Boolean {
    open spec fn scan(t: Seq<char>) -> Scan<bool> {
        scan_boolean(t)
    }

    fn parse<S: Supplier>(first: char, input: &mut S) -> (r: Result<(bool, usize), ParserError>) {
        Boolean::parse(first, input)
    }
}

} // verus!
