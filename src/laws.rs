use vstd::prelude::*;
use crate::chars::{is_linebreak, is_special_control};
use crate::common::{scan_trailing, skip_blanks};
use crate::errors::{FormatError, ParserError};
use crate::parsers::{scan_token, scan_value, shift, Value, ValueModel};
use crate::scan::{lemma_skip_skip, reads, Scan};
use crate::string::{repeat, scan_body, scan_string, Escape, StringType};

verus! {

/// Text that a basic string holds as it stands: no quote, no backslash, no
/// control character that such a string refuses (line breaks among them).
pub open spec fn is_plain_basic_text(c: Seq<char>) -> bool {
    forall|k: int| 0 <= k < c.len() ==> {
        let x = #[trigger] c[k];
        x != '"' && x != '\\' && !is_special_control(x)
    }
}

proof fn lemma_plain_body(c: Seq<char>, j: nat)
    requires
        is_plain_basic_text(c),
        j <= c.len(),
    ensures
        scan_body(seq!['"'] + c + seq!['"'], j + 1, StringType::Basic, Escape::Plain, 0, c.take(j as int))
            == (Scan::Done { value: c, end: c.len() + 2 }),
    decreases c.len() - j,
{
    let t = seq!['"'] + c + seq!['"'];
    if j < c.len() {
        assert(t[j + 1 as int] == c[j as int]);
        let x = c[j as int];
        assert(x != '"' && x != '\\' && !is_special_control(x));
        assert(c.take(j as int) + repeat('"', 0) =~= c.take(j as int));
        assert(c.take(j as int).push(x) =~= c.take(j + 1 as int));
        lemma_plain_body(c, j + 1);
    } else {
        assert(t[j + 1 as int] == '"');
        assert(c.take(j as int) =~= c);
    }
}

/// A basic string of plain text, alone on its input, reads back as exactly
/// the text between its quotes.
pub proof fn law_plain_basic_string_round_trip(c: Seq<char>)
    requires
        is_plain_basic_text(c),
    ensures
        scan_value(seq!['"'] + c + seq!['"']) == (Scan::Done {
            value: ValueModel::String(c),
            end: c.len() + 2,
        }),
{
    let s = seq!['"'] + c + seq!['"'];
    assert(s[0] == '"');
    assert(skip_blanks(s, 0) == 0);
    assert(s.skip(0) =~= s);
    if c.len() == 0 {
        assert(s =~= seq!['"', '"']);
        assert(scan_string(s) == (Scan::Done { value: Seq::<char>::empty(), end: 2nat }));
        assert(c =~= Seq::<char>::empty());
    } else {
        assert(s[1] == c[0]);
        assert(c.take(0) =~= Seq::<char>::empty());
        lemma_plain_body(c, 0);
    }
    assert(scan_token(s) == (Scan::Done { value: ValueModel::String(c), end: c.len() + 2 }));
    assert(s.skip(c.len() + 2 as int) =~= Seq::<char>::empty());
    assert(skip_blanks(Seq::<char>::empty(), 0) == 0);
    assert(scan_trailing(Seq::<char>::empty(), false) == (Scan::Done { value: (), end: 0nat }));
}

/// Two parses of the same characters give the same value, or the same error
/// at the same offset: a result depends on nothing but the input.
pub proof fn law_same_input_same_result(
    s: Seq<char>,
    first: Result<Value, ParserError>,
    second: Result<Value, ParserError>,
)
    requires
        reads(first, scan_value(s)),
        reads(second, scan_value(s)),
    ensures
        first is Ok <==> second is Ok,
        first matches Ok(a) ==> second matches Ok(b) && a@ == b@,
        first matches Err(a) ==> second matches Err(b) && a == b,
{
}

/// A value that reads well, followed on its line, after blanks, by anything
/// but a line break or a comment, fails with an expected `#` at that character.
pub proof fn law_garbage_after_value(s: Seq<char>, value: ValueModel, end: nat)
    requires
        skip_blanks(s, 0) < s.len(),
        !is_linebreak(s[skip_blanks(s, 0) as int]),
        shift(scan_token(s.skip(skip_blanks(s, 0) as int)), skip_blanks(s, 0)) == (Scan::Done {
            value,
            end,
        }),
        end <= s.len(),
        skip_blanks(s.skip(end as int), 0) + end < s.len(),
        s[(skip_blanks(s.skip(end as int), 0) + end) as int] != '#',
        !is_linebreak(s[(skip_blanks(s.skip(end as int), 0) + end) as int]),
    ensures
        scan_value(s) == (Scan::<ValueModel>::Failed {
            error: FormatError::ExpectedCharacter('#'),
            offset: end + skip_blanks(s.skip(end as int), 0),
            end: end + skip_blanks(s.skip(end as int), 0) + 1,
        }),
{
    let u = s.skip(end as int);
    assert(u[skip_blanks(u, 0) as int] == s[(skip_blanks(u, 0) + end) as int]);
}

/// Text that a multi-line basic string holds as it stands: no quote, no
/// backslash, no control character but tab and line breaks.
pub open spec fn is_plain_multiline_text(c: Seq<char>) -> bool {
    forall|k: int| 0 <= k < c.len() ==> {
        let x = #[trigger] c[k];
        x != '"' && x != '\\' && !(is_special_control(x) && !is_linebreak(x))
    }
}

proof fn lemma_multiline_run(t: Seq<char>, i: nat, c: Seq<char>, acc: Seq<char>)
    requires
        is_plain_multiline_text(c),
        i + c.len() <= t.len(),
        t.subrange(i as int, (i + c.len()) as int) == c,
    ensures
        scan_body(t, i, StringType::BasicMultiline, Escape::Plain, 0, acc) == scan_body(
            t,
            i + c.len(),
            StringType::BasicMultiline,
            Escape::Plain,
            0,
            acc + c,
        ),
    decreases c.len(),
{
    if c.len() == 0 {
        assert(acc + c =~= acc);
    } else {
        let x = c[0];
        assert(t[i as int] == t.subrange(i as int, (i + c.len()) as int)[0]);
        assert(x != '"' && x != '\\' && !(is_special_control(x) && !is_linebreak(x)));
        assert(acc + repeat('"', 0) =~= acc);
        let rest = c.skip(1);
        assert(t.subrange(i + 1 as int, (i + 1 + rest.len()) as int) =~= rest);
        assert forall|k: int| 0 <= k < rest.len() implies {
            let y = #[trigger] rest[k];
            y != '"' && y != '\\' && !(is_special_control(y) && !is_linebreak(y))
        } by {
            assert(rest[k] == c[k + 1]);
        }
        lemma_multiline_run(t, i + 1, rest, acc.push(x));
        assert(acc.push(x) + rest =~= acc + c);
    }
}

/// The three closing quotes of a multi-line basic string at `t[i]`.
proof fn lemma_multiline_close(t: Seq<char>, i: nat, value: Seq<char>)
    requires
        i + 3 <= t.len(),
        t[i as int] == '"',
        t[i + 1 as int] == '"',
        t[i + 2 as int] == '"',
    ensures
        scan_body(t, i, StringType::BasicMultiline, Escape::Plain, 0, value) == (Scan::Done {
            value,
            end: i + 3,
        }),
{
    assert(scan_body(t, i + 2, StringType::BasicMultiline, Escape::Plain, 2, value) == (Scan::Done {
        value,
        end: i + 3,
    }));
    assert(scan_body(t, i + 1, StringType::BasicMultiline, Escape::Plain, 1, value) == scan_body(
        t,
        i + 2,
        StringType::BasicMultiline,
        Escape::Plain,
        2,
        value,
    ));
}

/// Two quotes at `t[i]`, then a plain character: both quotes are kept.
proof fn lemma_multiline_two_quotes(t: Seq<char>, i: nat, acc: Seq<char>)
    requires
        i + 3 <= t.len(),
        t[i as int] == '"',
        t[i + 1 as int] == '"',
        t[i + 2 as int] != '"' && t[i + 2 as int] != '\\' && !(is_special_control(t[i + 2 as int]) && !is_linebreak(t[i + 2 as int])),
    ensures
        scan_body(t, i, StringType::BasicMultiline, Escape::Plain, 0, acc) == scan_body(
            t,
            i + 3,
            StringType::BasicMultiline,
            Escape::Plain,
            0,
            (acc + seq!['"', '"']).push(t[i + 2 as int]),
        ),
{
    assert(acc + repeat('"', 2) =~= acc + seq!['"', '"']);
    assert(scan_body(t, i + 1, StringType::BasicMultiline, Escape::Plain, 1, acc) == scan_body(
        t,
        i + 2,
        StringType::BasicMultiline,
        Escape::Plain,
        2,
        acc,
    ));
}

/// Two quotes inside a multi-line basic string, with more text after them,
/// stay in its value as they are, and the text after them is read on.
pub proof fn law_two_quotes_kept(a: Seq<char>, b: Seq<char>)
    requires
        is_plain_multiline_text(a),
        is_plain_multiline_text(b),
        a.len() > 0 ==> !is_linebreak(a[0]),
        b.len() > 0,
    ensures
        scan_value(seq!['"', '"', '"'] + a + seq!['"', '"'] + b + seq!['"', '"', '"']) == (Scan::Done {
            value: ValueModel::String(a + seq!['"', '"'] + b),
            end: a.len() + b.len() + 8,
        }),
{
    let s = seq!['"', '"', '"'] + a + seq!['"', '"'] + b + seq!['"', '"', '"'];
    let n: int = a.len() as int;
    let m: int = b.len() as int;
    let value = a + seq!['"', '"'] + b;
    assert(s.len() == n + m + 8);
    assert(s[0] == '"' && s[1] == '"' && s[2] == '"');
    assert(skip_blanks(s, 0) == 0);
    assert(s.skip(0) =~= s);
    if n > 0 {
        assert(s[3] == a[0]);
    } else {
        assert(s[3] == '"');
    }
    assert(s.subrange(3, 3 + n) =~= a);
    lemma_multiline_run(s, 3, a, Seq::empty());
    assert(Seq::<char>::empty() + a =~= a);
    assert(s[3 + n] == '"');
    assert(s[4 + n] == '"');
    assert(s[5 + n] == b[0]);
    lemma_multiline_two_quotes(s, (3 + n) as nat, a);
    let rest = b.skip(1);
    assert(s.subrange(6 + n, 6 + n + rest.len()) =~= rest);
    assert forall|k: int| 0 <= k < rest.len() implies {
        let y = #[trigger] rest[k];
        y != '"' && y != '\\' && !(is_special_control(y) && !is_linebreak(y))
    } by {
        assert(rest[k] == b[k + 1]);
    }
    lemma_multiline_run(s, (6 + n) as nat, rest, (a + seq!['"', '"']).push(b[0]));
    assert((a + seq!['"', '"']).push(b[0]) + rest =~= value);
    assert(s[5 + n + m] == '"');
    assert(s[6 + n + m] == '"');
    assert(s[7 + n + m] == '"');
    lemma_multiline_close(s, (5 + n + m) as nat, value);
    assert(scan_string(s) == (Scan::Done { value, end: (n + m + 8) as nat }));
    assert(s.skip(n + m + 8) =~= Seq::<char>::empty());
    assert(skip_blanks(Seq::<char>::empty(), 0) == 0);
    assert(scan_trailing(Seq::<char>::empty(), false) == (Scan::Done { value: (), end: 0nat }));
}

/// A line break right after the opening delimiter of a multi-line basic
/// string is no part of its value.
pub proof fn law_leading_newline_dropped(c: Seq<char>)
    requires
        is_plain_multiline_text(c),
    ensures
        scan_value(seq!['"', '"', '"', '\n'] + c + seq!['"', '"', '"']) == (Scan::Done {
            value: ValueModel::String(c),
            end: c.len() + 7,
        }),
{
    let s = seq!['"', '"', '"', '\n'] + c + seq!['"', '"', '"'];
    let n: int = c.len() as int;
    assert(s[0] == '"' && s[1] == '"' && s[2] == '"' && s[3] == '\n');
    assert(skip_blanks(s, 0) == 0);
    assert(s.skip(0) =~= s);
    assert(s.subrange(4, 4 + n) =~= c);
    lemma_multiline_run(s, 4, c, Seq::empty());
    assert(Seq::<char>::empty() + c =~= c);
    assert(s[4 + n] == '"' && s[5 + n] == '"' && s[6 + n] == '"');
    lemma_multiline_close(s, (4 + n) as nat, c);
    assert(scan_string(s) == (Scan::Done { value: c, end: (n + 7) as nat }));
    assert(s.skip(n + 7) =~= Seq::<char>::empty());
    assert(skip_blanks(Seq::<char>::empty(), 0) == 0);
    assert(scan_trailing(Seq::<char>::empty(), false) == (Scan::Done { value: (), end: 0nat }));
}

} // verus!
