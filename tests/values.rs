use toml_scalar::common::{check_comment_or_whitespaces, skip_whitespaces, Counter};
use toml_scalar::datetime::{Date, DateTimeType, Instant, Time};
use toml_scalar::keys::{Key, KeyParser};
use toml_scalar::errors::{line_around, FormatError, ParserError, UnallowedCharacterReason};
use toml_scalar::number::{Float, Integer, NumberType};
use toml_scalar::parsers::{parse_entry, parse_value, Entry, Value, ValueParser};
use toml_scalar::reader::{normalize, Supplier, ToSupplier};
use toml_scalar::boolean::Boolean;
use toml_scalar::datetime::DateTime;
use toml_scalar::number::Number;
use toml_scalar::scan::TypeParser;
use toml_scalar::string::{to_escaped_char, String as StringParser};

fn source(text: &str) -> ToSupplier {
    ToSupplier::from_string(&text.to_string())
}

fn normalized_source(text: &str) -> ToSupplier {
    let raw: Vec<char> = text.chars().collect();
    ToSupplier::from_chars(&normalize(&raw))
}

fn parse(text: &str) -> Result<Value, ParserError> {
    let mut input = source(text);
    ValueParser::parse(&mut input)
}

fn string_value(text: &str) -> String {
    match parse(text) {
        Ok(Value::String(s)) => s,
        other => panic!("not a string: {:?}", other),
    }
}

fn error_of(text: &str) -> ParserError {
    match parse(text) {
        Err(e) => e,
        Ok(v) => panic!("parsed as {:?}", v),
    }
}

fn chars(text: &str) -> Vec<char> {
    text.chars().collect()
}

#[test]
fn plain_basic_string_reads_back() {
    assert_eq!(string_value("\"hello, world\""), "hello, world");
    assert_eq!(string_value("  \"tab\there\"  # note\n"), "tab\there");
    assert_eq!(string_value("\"\""), "");
}

#[test]
fn escapes_in_basic_string() {
    assert_eq!(string_value("\"a\\tb\\u0041\""), "a\tbA");
    assert_eq!(string_value("\"\\b\\f\\n\\r\\\"\\\\\""), "\u{8}\u{c}\n\r\"\\");
    assert_eq!(string_value("\"\\U0001F600\""), "\u{1F600}");
}

#[test]
fn unknown_escape_fails() {
    let e = error_of("\"a\\qb\"");
    assert_eq!(e.error, FormatError::UnknownEscapeSequence);
    assert_eq!(e.offset, 3);
}

#[test]
fn surrogate_escape_fails() {
    let e = error_of("\"\\uD800\"");
    assert_eq!(e.error, FormatError::UnknownEscapeSequence);
    assert_eq!(e.offset, 6);
}

#[test]
fn bad_hex_digit_in_escape() {
    let e = error_of("\"\\u00G1\"");
    assert_eq!(
        e.error,
        FormatError::UnallowedCharacter('G', UnallowedCharacterReason::InUnicodeSequence)
    );
    assert_eq!(e.offset, 5);
}

#[test]
fn truncated_escape_at_end() {
    let e = error_of("\"\\u00");
    assert_eq!(e.error, FormatError::UnknownEscapeSequence);
    assert_eq!(e.offset, 5);
}

#[test]
fn integers_and_floats() {
    assert_eq!(parse("-42"), Ok(Value::Number(NumberType::Integer(-42))));
    assert_eq!(parse("3"), Ok(Value::Number(NumberType::Integer(3))));
    assert_eq!(parse("+17 # c"), Ok(Value::Number(NumberType::Integer(17))));
    match parse("3.0") {
        Ok(Value::Number(NumberType::Float(text))) => {
            assert_eq!(text, "3.0");
            assert_eq!(text.parse::<f64>().unwrap(), 3.0);
        }
        other => panic!("not a float: {:?}", other),
    }
    match parse(".5\n") {
        Ok(Value::Number(NumberType::Float(text))) => assert_eq!(text.parse::<f64>().unwrap(), 0.5),
        other => panic!("not a float: {:?}", other),
    }
}

#[test]
fn integer_limits() {
    assert_eq!(
        parse("9223372036854775807"),
        Ok(Value::Number(NumberType::Integer(i64::MAX)))
    );
    assert_eq!(
        parse("-9223372036854775808"),
        Ok(Value::Number(NumberType::Integer(i64::MIN)))
    );
    let e = error_of("9223372036854775808");
    assert_eq!(e.error, FormatError::Unknown("number too large to fit in target type"));
    assert_eq!(e.offset, 19);
    let e = error_of("-9223372036854775809");
    assert_eq!(e.error, FormatError::Unknown("number too small to fit in target type"));
}

#[test]
fn sign_alone_is_no_number() {
    let e = error_of("- ");
    assert_eq!(e.error, FormatError::Unknown("invalid digit found in string"));
    assert_eq!(e.offset, 1);
    let e = error_of(".");
    assert_eq!(e.error, FormatError::Unknown("invalid float literal"));
}

#[test]
fn stray_character_in_number() {
    let e = error_of("12a");
    assert_eq!(e.error, FormatError::UnallowedCharacter('a', UnallowedCharacterReason::InTypeNumber));
    assert_eq!(e.offset, 2);
    let e = error_of("1.2.3");
    assert_eq!(e.error, FormatError::UnallowedCharacter('.', UnallowedCharacterReason::InTypeNumber));
    assert_eq!(e.offset, 3);
}

#[test]
fn integer_and_float_conversions() {
    assert_eq!(Integer::parse(&chars("-120")), Ok(-120));
    assert_eq!(Integer::parse(&chars("")), Err(FormatError::Unknown("cannot parse integer from empty string")));
    assert_eq!(Integer::parse(&chars("1x")), Err(FormatError::Unknown("invalid digit found in string")));
    assert_eq!(Float::parse(&chars("-1.25")), Ok("-1.25".to_string()));
    assert_eq!(Float::parse(&chars("1.2.5")), Err(FormatError::Unknown("invalid float literal")));
}

#[test]
fn booleans() {
    assert_eq!(parse("true"), Ok(Value::Boolean(true)));
    assert_eq!(parse("false # no\n"), Ok(Value::Boolean(false)));
    let e = error_of("tru");
    assert_eq!(e.error, FormatError::Unknown("provided string was not `true` or `false`"));
    assert_eq!(e.offset, 3);
    assert!(parse("truee").is_err());
    assert_eq!(error_of("True").error, FormatError::EmptyValue);
    let e = error_of("tx");
    assert_eq!(e.error, FormatError::UnallowedCharacter('x', UnallowedCharacterReason::InTypeBoolean));
}

#[test]
fn multiline_basic_drops_leading_newline() {
    assert_eq!(string_value("\"\"\"\nhello\"\"\""), "hello");
    let mut input = normalized_source("\"\"\"\r\nhello\"\"\"");
    assert_eq!(ValueParser::parse(&mut input), Ok(Value::String("hello".to_string())));
}

#[test]
fn multiline_basic_keeps_two_quotes() {
    assert_eq!(string_value("\"\"\"a\"\"b\"\"\""), "a\"\"b");
    assert_eq!(string_value("\"\"\"one \"quote\"\"\""), "one \"quote");
    assert_eq!(string_value("\"\"\"\"\"\""), "");
}

#[test]
fn line_ending_backslash_folds() {
    assert_eq!(string_value("\"\"\"The quick \\\n    brown\"\"\""), "The quick brown");
    assert_eq!(string_value("\"\"\"a\\\n\n  \t b\"\"\""), "ab");
}

#[test]
fn multiline_literal() {
    assert_eq!(string_value("'''\nraw \\n text\nsecond'''"), "raw \\n text\nsecond");
    assert_eq!(string_value("'''it''s'''"), "it''s");
}

#[test]
fn literal_string() {
    assert_eq!(string_value("'C:\\Users\\nodejs'"), "C:\\Users\\nodejs");
    assert_eq!(string_value("''"), "");
}

#[test]
fn unterminated_strings() {
    let e = error_of("\"abc\ndef\"");
    assert_eq!(e.error, FormatError::ExpectedCharacter('"'));
    assert_eq!(e.offset, 4);
    let e = error_of("'abc");
    assert_eq!(e.error, FormatError::ExpectedCharacter('\''));
    assert_eq!(e.offset, 4);
    let e = error_of("\"\"\"abc\"\"");
    assert_eq!(e.error, FormatError::ExpectedSequence("\"\"\""));
    assert_eq!(e.offset, 8);
}

#[test]
fn control_character_in_string() {
    let e = error_of("\"a\u{1}b\"");
    assert_eq!(
        e.error,
        FormatError::UnallowedCharacter('\u{1}', UnallowedCharacterReason::InTypeBasicString)
    );
    assert_eq!(e.offset, 2);
    let e = error_of("'a\u{7f}b'");
    assert_eq!(
        e.error,
        FormatError::UnallowedCharacter('\u{7f}', UnallowedCharacterReason::InTypeLiteralString)
    );
    assert_eq!(string_value("'a\tb'"), "a\tb");
}

#[test]
fn garbage_after_empty_string() {
    let e = error_of("\"\"x");
    assert_eq!(e.error, FormatError::ExpectedCharacter('#'));
    assert_eq!(e.offset, 2);
}

#[test]
fn date_time_forms() {
    let date = Date { year: 1979, month: 5, day: 27 };
    let time = Time { hour: 7, minute: 32, second: 0, nanosecond: 0 };
    assert_eq!(
        parse("1979-05-27T07:32:00Z"),
        Ok(Value::DateTime(DateTimeType::DateTime(date, time, Some(0))))
    );
    assert_eq!(parse("1979-05-27"), Ok(Value::DateTime(DateTimeType::Date(date))));
    assert_eq!(parse("07:32:00"), Ok(Value::DateTime(DateTimeType::Time(time, None))));
    assert_eq!(
        parse("1979-05-27 07:32:00"),
        Ok(Value::DateTime(DateTimeType::DateTime(date, time, None)))
    );
    assert_eq!(
        parse("1979-05-27 # a date\n"),
        Ok(Value::DateTime(DateTimeType::Date(date)))
    );
}

#[test]
fn date_time_offsets_and_fractions() {
    let date = Date { year: 1979, month: 5, day: 27 };
    let time = Time { hour: 0, minute: 32, second: 0, nanosecond: 999_999_000 };
    assert_eq!(
        parse("1979-05-27T00:32:00.999999-07:00"),
        Ok(Value::DateTime(DateTimeType::DateTime(date, time, Some(-25_200))))
    );
    let fine = Time { hour: 7, minute: 32, second: 0, nanosecond: 123_456_789 };
    assert_eq!(parse("07:32:00.1234567891"), Ok(Value::DateTime(DateTimeType::Time(fine, None))));
    let e = error_of("07:32:00.x");
    assert_eq!(e.error, FormatError::UnallowedCharacter('x', UnallowedCharacterReason::InTypeTime));
    assert_eq!(e.offset, 9);
}

#[test]
fn date_missing_day() {
    let e = error_of("1979-05");
    assert_eq!(e.error, FormatError::ExpectedSequence("DD"));
    assert_eq!(e.offset, 7);
    let e = error_of("1979-5-27");
    assert_eq!(e.error, FormatError::ExpectedSequence("MM"));
    assert_eq!(e.offset, 6);
    let e = error_of("1979-05-27T07:3");
    assert_eq!(e.error, FormatError::ExpectedSequence("mm"));
    assert_eq!(e.offset, 15);
}

#[test]
fn date_time_out_of_range() {
    let e = error_of("1979-02-30");
    assert_eq!(e.error, FormatError::Unknown("date out of range"));
    assert_eq!(e.offset, 9);
    assert_eq!(
        parse("2000-02-29"),
        Ok(Value::DateTime(DateTimeType::Date(Date { year: 2000, month: 2, day: 29 })))
    );
    let e = error_of("25:00:00");
    assert_eq!(e.error, FormatError::Unknown("time out of range"));
    assert_eq!(e.offset, 7);
    let e = error_of("1979-05-27T07:32:00+24:00");
    assert_eq!(e.error, FormatError::Unknown("offset out of range"));
    assert_eq!(e.offset, 24);
}

#[test]
fn trailing_garbage_after_number() {
    let e = error_of("42 x\n");
    assert_eq!(e.error, FormatError::ExpectedCharacter('#'));
    assert_eq!(e.offset, 3);
    let e = error_of("  7   y");
    assert_eq!(e.error, FormatError::ExpectedCharacter('#'));
    assert_eq!(e.offset, 6);
}

#[test]
fn control_character_in_comment() {
    let e = error_of("42 # bad \u{7} here");
    assert_eq!(e.error, FormatError::UnallowedCharacter('\u{7}', UnallowedCharacterReason::InComment));
    assert_eq!(e.offset, 9);
    assert_eq!(parse("42 # tabs\tare fine"), Ok(Value::Number(NumberType::Integer(42))));
}

#[test]
fn empty_values() {
    let e = error_of("   \nnext");
    assert_eq!(e.error, FormatError::EmptyValue);
    assert_eq!(e.offset, 3);
    assert_eq!(error_of("").error, FormatError::EmptyValue);
    let e = error_of("  @");
    assert_eq!(e.error, FormatError::EmptyValue);
    assert_eq!(e.offset, 2);
}

#[test]
fn same_input_twice() {
    for text in ["\"x\\ty\"", "1979-05-27T07:32:00Z", "12a", "42 x", "tru"] {
        let mut first = source(text);
        let mut second = source(text);
        assert_eq!(ValueParser::parse(&mut first), ValueParser::parse(&mut second));
    }
}

#[test]
fn parse_reads_one_line_only() {
    let mut input = source("1 # one\n2\n");
    assert_eq!(parse_value(&mut input), Ok(Value::Number(NumberType::Integer(1))));
    assert_eq!(parse_value(&mut input), Ok(Value::Number(NumberType::Integer(2))));
    assert_eq!(input.get(), None);
}

#[test]
fn line_breaks_are_normalised() {
    let mut input = normalized_source("a\r\nb\rc\n");
    let mut seen = Vec::new();
    while let Some(c) = input.get() {
        seen.push(c);
        assert_eq!(input.last(), Some(c));
    }
    assert_eq!(seen, vec!['a', '\n', 'b', '\n', 'c', '\n']);
    assert_eq!(input.last(), None);
}

#[test]
fn unread_puts_back() {
    let mut input = source("bc");
    input.unread('a');
    assert_eq!(input.get(), Some('a'));
    assert_eq!(input.get(), Some('b'));
}

#[test]
fn skipping_blanks() {
    let mut input = source(" \t x");
    assert_eq!(skip_whitespaces(&mut input, true), Some('x'));
    let mut input = source("  \nx");
    assert_eq!(skip_whitespaces(&mut input, true), None);
    assert_eq!(input.get(), Some('x'));
    let mut input = source("  \nx");
    assert_eq!(skip_whitespaces(&mut input, false), Some('\n'));
}

#[test]
fn comment_checks() {
    let mut input = source("  # fine\nnext");
    assert_eq!(check_comment_or_whitespaces(&mut input, false), None);
    assert_eq!(input.get(), Some('n'));
    let mut input = source("  oops");
    assert_eq!(
        check_comment_or_whitespaces(&mut input, false),
        Some(ParserError { error: FormatError::ExpectedCharacter('#'), offset: 2 })
    );
    let mut input = source(" no marker needed");
    assert_eq!(check_comment_or_whitespaces(&mut input, true), None);
}

#[test]
fn error_report() {
    let e = error_of("42 x");
    assert_eq!(e.explain("42 x\r\n"), "42 x\n   ^\nFailed to parse value: expected character `#`");
    let e = ParserError {
        error: FormatError::UnallowedCharacter('a', UnallowedCharacterReason::InTypeNumber),
        offset: 0,
    };
    assert_eq!(e.explain("a"), "a\n^\nFailed to parse value: unexpected character `a` in a number");
    assert_eq!(FormatError::ExpectedSequence("DD").description(), "expected `DD`");
    assert_eq!(FormatError::Unknown("x").description(), "unknown error: x");
    assert_eq!(FormatError::UnexpectedEnd.description(), "unexpected end of file");
}

#[test]
fn error_offsets_move() {
    let inner = ParserError { error: FormatError::EmptyValue, offset: 2 };
    assert_eq!(
        ParserError::extend::<()>(inner, 5),
        Err(ParserError { error: FormatError::EmptyValue, offset: 7 })
    );
    assert_eq!(
        ParserError::from::<()>(FormatError::UnexpectedEnd, 1),
        Err(ParserError { error: FormatError::UnexpectedEnd, offset: 1 })
    );
}

#[test]
fn escape_table() {
    assert_eq!(to_escaped_char('t'), Some('\t'));
    assert_eq!(to_escaped_char('"'), Some('"'));
    assert_eq!(to_escaped_char('x'), None);
}

#[test]
fn counter_stops_at_bound() {
    let c = Counter::new(2);
    assert!(c.is_zero());
    let c = c.inc();
    assert!(!c.is_zero());
    assert!(!c.is_capped());
    let c = c.inc().inc();
    assert!(c.is_capped());
}

fn segment(text: &str) -> Result<(Key, bool), ParserError> {
    let mut input = source(text);
    let first = input.get().unwrap();
    KeyParser::parse_segment(first, &mut input)
}

#[test]
fn key_segments() {
    assert_eq!(segment("name = 1"), Ok((Key::new("name".to_string()), true)));
    assert_eq!(segment("a.b = 1"), Ok((Key::new("a".to_string()), false)));
    assert_eq!(segment("bare_key-2  .x"), Ok((Key::new("bare_key-2".to_string()), false)));
    assert_eq!(segment("\"quoted key\" = 1"), Ok((Key::new("quoted key".to_string()), true)));
    assert_eq!(segment("'lit'= 1"), Ok((Key::new("lit".to_string()), true)));
    let e = segment("bad! = 1").unwrap_err();
    assert_eq!(e.error, FormatError::UnallowedCharacter('!', UnallowedCharacterReason::InKey));
    assert_eq!(e.offset, 3);
    assert_eq!(segment("= 1").unwrap_err().error, FormatError::EmptyValue);
    assert_eq!(segment("key").unwrap_err().error, FormatError::UnexpectedEnd);
    let e = segment("key x").unwrap_err();
    assert_eq!(e.error, FormatError::UnallowedCharacter('x', UnallowedCharacterReason::InKey));
    assert_eq!(e.offset, 4);
}

#[test]
fn entry_line_then_value() {
    let mut input = source("title = \"TOML\" # name\n");
    let first = input.get().unwrap();
    let (key, done) = KeyParser::parse_segment(first, &mut input).unwrap();
    assert_eq!(key.name, "title");
    assert!(done);
    assert_eq!(ValueParser::parse(&mut input), Ok(Value::String("TOML".to_string())));
    assert_eq!(input.remaining(), 0);
}

fn key(name: &str) -> Key {
    Key::new(name.to_string())
}

#[test]
fn entries() {
    let mut input = source("server.port = 8080 # listen\n'name' = \"x\"\n");
    assert_eq!(
        parse_entry(&mut input),
        Ok(Entry { path: vec![key("server"), key("port")], value: Value::Number(NumberType::Integer(8080)) })
    );
    assert_eq!(
        parse_entry(&mut input),
        Ok(Entry { path: vec![key("name")], value: Value::String("x".to_string()) })
    );
    assert_eq!(input.remaining(), 0);
}

#[test]
fn entry_errors_carry_line_offsets() {
    let mut input = source("  a . b = 12a\n");
    let e = parse_entry(&mut input).unwrap_err();
    assert_eq!(e.error, FormatError::UnallowedCharacter('a', UnallowedCharacterReason::InTypeNumber));
    assert_eq!(e.offset, 12);
    let mut input = source("a.\n");
    let e = parse_entry(&mut input).unwrap_err();
    assert_eq!(e.error, FormatError::EmptyValue);
    assert_eq!(e.offset, 2);
    let mut input = source("a b = 1");
    let e = parse_entry(&mut input).unwrap_err();
    assert_eq!(e.error, FormatError::UnallowedCharacter('b', UnallowedCharacterReason::InKey));
    assert_eq!(e.offset, 2);
}

#[test]
fn scanners_through_one_trait() {
    let mut input = source("rue # c");
    assert_eq!(<Boolean as TypeParser<bool>>::parse('t', &mut input), Ok((true, 4)));
    assert_eq!(input.get(), Some(' '));
    let mut input = source("5.25\n");
    assert_eq!(
        <Number as TypeParser<NumberType>>::parse('1', &mut input),
        Ok((NumberType::Float("15.25".to_string()), 5))
    );
    let mut input = source("ab\"!");
    assert_eq!(
        <StringParser as TypeParser<String>>::parse('"', &mut input),
        Ok(("ab".to_string(), 4))
    );
    assert_eq!(input.get(), Some('!'));
    let mut input = source("2:00:00Z");
    let time = Time { hour: 12, minute: 0, second: 0, nanosecond: 0 };
    assert_eq!(
        <DateTime as TypeParser<DateTimeType>>::parse('1', &mut input),
        Ok((DateTimeType::Time(time, Some(0)), 9))
    );
    assert_eq!(input.get(), None);
}

#[test]
fn time_alone_with_offset() {
    let time = Time { hour: 7, minute: 32, second: 0, nanosecond: 0 };
    assert_eq!(parse("07:32:00Z"), Ok(Value::DateTime(DateTimeType::Time(time, Some(0)))));
    assert_eq!(parse("07:32:00+05:30"), Ok(Value::DateTime(DateTimeType::Time(time, Some(19_800)))));
    let e = error_of("07:32:00+05");
    assert_eq!(e.error, FormatError::ExpectedSequence("mm"));
    assert_eq!(e.offset, 11);
    let e = error_of("07:32:00+0x:00");
    assert_eq!(e.error, FormatError::UnallowedCharacter('x', UnallowedCharacterReason::InTypeTime));
    assert_eq!(e.offset, 10);
}

#[test]
fn c1_control_in_comment() {
    let e = error_of("1 # a\u{85}b\n");
    assert_eq!(e.error, FormatError::UnallowedCharacter('\u{85}', UnallowedCharacterReason::InComment));
    assert_eq!(e.offset, 5);
    let mut input = source(" # a\u{85}b\n");
    assert!(check_comment_or_whitespaces(&mut input, false).is_some());
}

#[test]
fn entries_skip_blank_and_comment_lines() {
    let mut input = source("# c\n\n   \n  # another\nkey = true\n");
    assert_eq!(
        parse_entry(&mut input),
        Ok(Entry { path: vec![key("key")], value: Value::Boolean(true) })
    );
    let mut input = source("# only a comment\n");
    let e = parse_entry(&mut input).unwrap_err();
    assert_eq!(e.error, FormatError::EmptyValue);
    assert_eq!(e.offset, 17);
    let mut input = source("# bad \u{1}\nk = 1");
    let e = parse_entry(&mut input).unwrap_err();
    assert_eq!(e.error, FormatError::UnallowedCharacter('\u{1}', UnallowedCharacterReason::InComment));
    assert_eq!(e.offset, 6);
}

#[test]
fn last_character_after_scans() {
    let mut input = source("\"\n");
    assert_eq!(<StringParser as TypeParser<String>>::parse('"', &mut input), Ok((String::new(), 2)));
    assert_eq!(input.last(), Some('\n'));
    let mut input = source("\\nb'x");
    assert_eq!(<StringParser as TypeParser<String>>::parse('\'', &mut input), Ok(("\\nb".to_string(), 5)));
    assert_eq!(input.last(), Some('\''));
    assert_eq!(input.get(), Some('x'));
    let mut input = source("\t\tx");
    assert_eq!(skip_whitespaces(&mut input, true), Some('x'));
    assert_eq!(input.last(), Some('x'));
    let mut input = source("  \nrest");
    assert_eq!(skip_whitespaces(&mut input, true), None);
    assert_eq!(input.last(), Some('\n'));
    assert_eq!(input.get(), Some('r'));
    let mut input = source("2 #");
    assert_eq!(<Number as TypeParser<NumberType>>::parse('4', &mut input), Ok((NumberType::Integer(42), 2)));
    assert_eq!(input.last(), Some(' '));
}

fn instant_of(text: &str) -> Option<Instant> {
    match parse(text) {
        Ok(Value::DateTime(d)) => d.instant(),
        other => panic!("not a date-time: {:?}", other),
    }
}

#[test]
fn offsets_give_utc_instants() {
    let utc = Instant { year: 1979, month: 5, day: 27, hour: 7, minute: 32, second: 0, nanosecond: 0 };
    assert_eq!(instant_of("1979-05-27T00:32:00-07:00"), Some(utc));
    assert_eq!(instant_of("1979-05-27T07:32:00Z"), Some(utc));
    assert_eq!(
        instant_of("2000-01-01T00:30:00+01:00"),
        Some(Instant { year: 1999, month: 12, day: 31, hour: 23, minute: 30, second: 0, nanosecond: 0 })
    );
    assert_eq!(instant_of("1979-05-27 07:32:00"), None);
    assert_eq!(instant_of("1979-05-27"), None);
    assert_eq!(instant_of("07:32:00Z"), None);
}

#[test]
fn lines_around_an_index() {
    let text = chars("ab\ncde\nf");
    assert_eq!(line_around(&text, 4), (3, 6));
    assert_eq!(line_around(&text, 0), (0, 2));
    assert_eq!(line_around(&text, 8), (7, 8));
    assert_eq!(line_around(&text, 6), (3, 6));
}

#[test]
fn last_character_after_dates_and_comments() {
    let mut input = source("979-05-27 x");
    assert!(<DateTime as TypeParser<DateTimeType>>::parse('1', &mut input).is_ok());
    assert_eq!(input.last(), Some('x'));
    assert_eq!(input.get(), Some(' '));
    let mut input = source("7:32:00Z;");
    assert!(<DateTime as TypeParser<DateTimeType>>::parse('0', &mut input).is_ok());
    assert_eq!(input.last(), Some('Z'));
    let mut input = source("  # note\nnext");
    assert_eq!(check_comment_or_whitespaces(&mut input, false), None);
    assert_eq!(input.last(), Some('\n'));
    let mut input = source("   ");
    assert_eq!(check_comment_or_whitespaces(&mut input, false), None);
    assert_eq!(input.last(), None);
}

#[test]
fn in_memory_source_keeps_characters() {
    let mut input = source("a\r\nb\r");
    assert_eq!(input.last(), None);
    let mut seen = Vec::new();
    while let Some(c) = input.get() {
        assert_eq!(input.last(), Some(c));
        seen.push(c);
    }
    assert_eq!(seen, vec!['a', '\r', '\n', 'b', '\r']);
    assert_eq!(input.get(), None);
    assert_eq!(input.last(), None);
}
