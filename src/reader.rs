use vstd::prelude::*;
use crate::text::chars_of;

verus! {

/// A pull-based supplier of characters, into which characters already read
/// can be put back.
pub trait Supplier {
    /// The characters that this supplier will still hand out, in order.
    spec fn rest(&self) -> Seq<char>;

    /// The result of the latest call of `get`.
    spec fn last_spec(&self) -> Option<char>;

    /// Hands out the next character, or `None` at the end of the input.
    fn get(&mut self) -> (r: Option<char>)
        ensures
            old(self).rest().len() == 0 ==> r is None && final(self).rest().len() == 0,
            old(self).rest().len() > 0 ==> r == Some(old(self).rest()[0]) && final(self).rest()
                == old(self).rest().drop_first(),
            final(self).last_spec() == r,
    ;

    /// The character most recently handed out.
    fn last(&self) -> (r: Option<char>)
        ensures
            r == self.last_spec(),
    ;

    /// Puts `c` back in front of what is left to hand out.
    fn unread(&mut self, c: char)
        ensures
            final(self).rest() == seq![c] + old(self).rest(),
            final(self).last_spec() == old(self).last_spec(),
    ;
}

/// A supplier over characters held in memory.
pub struct ToSupplier {
    /// The characters left to hand out, the next one last.
    pending: Vec<char>,
    last: Option<char>,
}

/// `raw` with each carriage return and line feed pair, and each carriage
/// return alone, turned into one line feed.
pub open spec fn normalized(raw: Seq<char>) -> Seq<char>
    decreases raw.len(),
{
    if raw.len() == 0 {
        Seq::empty()
    } else if raw[0] == '\r' {
        if raw.len() > 1 && raw[1] == '\n' {
            seq!['\n'] + normalized(raw.skip(2))
        } else {
            seq!['\n'] + normalized(raw.skip(1))
        }
    } else {
        seq![raw[0]] + normalized(raw.skip(1))
    }
}

/// The characters of `raw` with their line breaks made line feeds.
pub fn normalize(raw: &Vec<char>) -> (r: Vec<char>)
    ensures
        r@ == normalized(raw@),
{
    let mut out: Vec<char> = Vec::new();
    let mut i: usize = 0;
    proof {
        assert(raw@.skip(0) =~= raw@);
    }
    while i < raw.len()
        invariant
            i <= raw.len(),
            out@ + normalized(raw@.skip(i as int)) == normalized(raw@),
        decreases raw.len() - i,
    {
        let ghost rest = raw@.skip(i as int);
        let c = raw[i];
        assert(rest[0] == c);
        if c == '\r' {
            out.push('\n');
            if i + 1 < raw.len() && raw[i + 1] == '\n' {
                proof {
                    assert(rest[1] == '\n');
                    assert(rest.skip(2) =~= raw@.skip(i + 2));
                    assert(out@ + normalized(raw@.skip(i + 2)) =~= out@.drop_last() + normalized(rest));
                }
                i = i + 2;
            } else {
                proof {
                    assert(rest.skip(1) =~= raw@.skip(i + 1));
                    assert(out@ + normalized(raw@.skip(i + 1)) =~= out@.drop_last() + normalized(rest));
                }
                i = i + 1;
            }
        } else {
            out.push(c);
            proof {
                assert(rest.skip(1) =~= raw@.skip(i + 1));
                assert(out@ + normalized(raw@.skip(i + 1)) =~= out@.drop_last() + normalized(rest));
            }
            i = i + 1;
        }
    }
    proof {
        assert(normalized(raw@.skip(i as int)) =~= Seq::<char>::empty());
        assert(out@ + Seq::<char>::empty() =~= out@);
    }
    out
}

/// `s` backwards.
pub open spec fn reversed(s: Seq<char>) -> Seq<char> {
    Seq::new(s.len(), |k: int| s[s.len() - 1 - k])
}

impl ToSupplier {
    /// A supplier that hands out the characters of `string`, as they are.
    pub fn from_string(string: &std::string::String) -> (r: ToSupplier)
        ensures
            r.rest() == string@,
            r.last_spec() is None,
    {
        let chars = chars_of(string.as_str());
        ToSupplier::from_chars(&chars)
    }

    /// How many characters are left to hand out.
    pub fn remaining(&self) -> (r: usize)
        ensures
            r == self.rest().len(),
    {
        self.pending.len()
    }

    /// A supplier that hands out exactly the characters of `chars`.
    pub fn from_chars(chars: &Vec<char>) -> (r: ToSupplier)
        ensures
            r.rest() == chars@,
            r.last_spec() is None,
    {
        let mut pending: Vec<char> = Vec::new();
        let mut k: usize = chars.len();
        while k > 0
            invariant
                k <= chars.len(),
                pending@ == reversed(chars@.skip(k as int)),
            decreases k,
        {
            k = k - 1;
            pending.push(chars[k]);
            proof {
                assert(pending@ =~= reversed(chars@.skip(k as int)));
            }
        }
        proof {
            assert(reversed(pending@) =~= chars@);
        }
        ToSupplier { pending, last: None }
    }
}

impl Supplier for ToSupplier {
    closed spec fn rest(&self) -> Seq<char> {
        reversed(self.pending@)
    }

    closed spec fn last_spec(&self) -> Option<char> {
        self.last
    }

    fn get(&mut self) -> (r: Option<char>) {
        let r = self.pending.pop();
        proof {
            if old(self).pending@.len() > 0 {
                assert(reversed(self.pending@) =~= reversed(old(self).pending@).drop_first());
            }
        }
        self.last = r;
        r
    }

    fn last(&self) -> (r: Option<char>) {
        self.last
    }

    fn unread(&mut self, c: char) {
        self.pending.push(c);
        proof {
            assert(reversed(self.pending@) =~= seq![c] + reversed(old(self).pending@));
        }
    }
}

} // verus!
