use vstd::prelude::*;
use crate::errors::{FormatError, ParserError};
use crate::reader::Supplier;

verus! {

/// What a scanner does with the characters `t`: either it reads a value from
/// the first `end` of them, or it stops at `end` with an error found at
/// `offset`.
pub enum Scan<V> {
    Done { value: V, end: nat },
    Failed { error: FormatError, offset: nat, end: nat },
}

/// An error found on the character at `offset` of `t`, or at the end of `t`:
/// that character has been read, nothing after it.
pub open spec fn fail<V>(error: FormatError, offset: nat, t: Seq<char>) -> Scan<V> {
    Scan::Failed { error, offset, end: if offset < t.len() { offset + 1 } else { t.len() } }
}

/// The number of characters that `scan` reads.
pub open spec fn scan_end<V>(scan: Scan<V>) -> nat {
    match scan {
        Scan::Done { end, .. } => end,
        Scan::Failed { end, .. } => end,
    }
}

/// `r` is what `scan` reads: its value, seen through `view`, or its error.
pub open spec fn reads<V: View>(r: Result<V, ParserError>, scan: Scan<V::V>) -> bool {
    match scan {
        Scan::Done { value, .. } => r matches Ok(v) && v@ == value,
        Scan::Failed { error, offset, .. } => r matches Err(e) && e.error == error && e.offset as nat == offset,
    }
}

/// `r` is what `scan` reads, seen through `view`, with the number of
/// characters that it read, or its error.
pub open spec fn reads_until<V: View>(r: Result<(V, usize), ParserError>, scan: Scan<V::V>) -> bool {
    match scan {
        Scan::Done { value, end } => r matches Ok(v) && v.0@ == value && v.1 as nat == end,
        Scan::Failed { error, offset, .. } => r matches Err(e) && e.error == error && e.offset as nat == offset,
    }
}

/// `r` is what `scan` reads, with the number of characters that it read, or
/// its error.
pub open spec fn yields_until<V>(r: Result<(V, usize), ParserError>, scan: Scan<V>) -> bool {
    match scan {
        Scan::Done { value, end } => r matches Ok(v) && v.0 == value && v.1 as nat == end,
        Scan::Failed { error, offset, .. } => r matches Err(e) && e.error == error && e.offset as nat == offset,
    }
}

/// `r` is what `scan` reads, value for value, or its error.
pub open spec fn yields<V>(r: Result<V, ParserError>, scan: Scan<V>) -> bool {
    match scan {
        Scan::Done { value, .. } => r == Ok::<V, ParserError>(value),
        Scan::Failed { error, offset, .. } => r matches Err(e) && e.error == error && e.offset as nat == offset,
    }
}

/// The character at index `n` of `t`, or `None` past its end.
pub open spec fn char_at(t: Seq<char>, n: nat) -> Option<char> {
    if n < t.len() {
        Some(t[n as int])
    } else {
        None
    }
}

/// The character that a scanner which looks one character past its value
/// read last: that character, or the one at which it found its error.
pub open spec fn last_read_ahead<V>(t: Seq<char>, scan: Scan<V>) -> Option<char> {
    match scan {
        Scan::Done { end, .. } => char_at(t, end),
        Scan::Failed { offset, .. } => char_at(t, offset),
    }
}

/// The character that a scanner whose value ends with a closing character
/// read last: that character, or the one at which it found its error.
pub open spec fn last_read_closed<V>(t: Seq<char>, scan: Scan<V>) -> Option<char> {
    match scan {
        Scan::Done { end, .. } => char_at(t, (end - 1) as nat),
        Scan::Failed { offset, .. } => char_at(t, offset),
    }
}

/// An error in `r` was found no further than `n` characters in.
pub open spec fn offset_within<V>(r: Result<V, ParserError>, n: nat) -> bool {
    r matches Err(e) ==> e.offset as nat <= n
}

/// A value in `r` took no more than `n` characters.
pub open spec fn end_within<V>(r: Result<(V, usize), ParserError>, n: nat) -> bool {
    r matches Ok(v) ==> v.1 as nat <= n
}

/// Skipping `a` characters, then `b`, skips `a + b`.
pub proof fn lemma_skip_skip(s: Seq<char>, a: int, b: int)
    requires
        0 <= a,
        0 <= b,
        a + b <= s.len(),
    ensures
        s.skip(a).skip(b) == s.skip(a + b),
{
    assert(s.skip(a).skip(b) =~= s.skip(a + b));
}

/// Reading one character of `t.skip(i)` leaves `t.skip(i + 1)`.
pub proof fn lemma_skip_next(t: Seq<char>, i: int)
    requires
        0 <= i < t.len(),
    ensures
        t.skip(i)[0] == t[i],
        t.skip(i).drop_first() == t.skip(i + 1),
        t.skip(i).len() == t.len() - i,
{
    assert(t.skip(i).drop_first() =~= t.skip(i + 1));
}

/// Putting `t[i]` back in front of `t.skip(i + 1)` gives `t.skip(i)`.
pub proof fn lemma_skip_back(t: Seq<char>, i: int)
    requires
        0 <= i < t.len(),
    ensures
        seq![t[i]] + t.skip(i + 1) == t.skip(i),
{
    assert(seq![t[i]] + t.skip(i + 1) =~= t.skip(i));
}

/// A scanner of one kind of value, `T`, that is handed the value's first
/// character and reads the rest from a supplier.
pub trait TypeParser<T: View> {
    /// What the scanner reads from `t`, whose first character begins the value.
    spec fn scan(t: Seq<char>) -> Scan<T::V>;

    /// Reads a value whose first character `first` has just been read, and
    /// gives it with the number of characters that it took.
    fn parse<S: Supplier>(first: char, input: &mut S) -> (r: Result<(T, usize), ParserError>)
        requires
            old(input).rest().len() < usize::MAX,
        ensures
            reads_until(r, Self::scan(seq![first] + old(input).rest())),
            final(input).rest() == (seq![first] + old(input).rest()).skip(
                scan_end(Self::scan(seq![first] + old(input).rest())) as int,
            ),
    ;
}

} // verus!
