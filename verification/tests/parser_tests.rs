use kdl_query::entries::{Entries, EntryKind};
use kdl_query::error::{ParseError, ParseStringError};
use kdl_query::lexer::{Lexer, TokenType};
use kdl_query::parser::{Node, NodeKind, Path, Range};
use kdl_query::strings::{parse_alphanumeric, parse_keyword, parse_string};
use kdl_query::value::Value;

fn named(s: &str) -> Node {
    Node::from(NodeKind::Named(s.to_string()))
}

fn int_val(i: i128) -> Option<Value> {
    Some(Value::Integer(i))
}

fn str_val(s: &str) -> Option<Value> {
    Some(Value::String(s.to_string()))
}

fn float_val(t: &str) -> Option<Value> {
    Some(Value::Float(t.to_string()))
}

fn arg(position: u64, value: Option<Value>) -> EntryKind {
    EntryKind::Argument { position, value }
}

fn prop(name: &str, value: Option<Value>) -> EntryKind {
    EntryKind::Property { name: name.to_string(), value }
}

#[test]
fn parser_strings() {
    fn test_string(input: &str, output: Result<&str, ParseError>) {
        let mut lexer = Lexer::from(input);
        let token = lexer.next();
        assert_eq!(token, Some(TokenType::String(input.to_string())));
        assert_eq!(
            parse_string(input).map_err(|e| e.into_parse_error(input)),
            output.map(|s| s.to_string())
        );
    }
    test_string("\"hello\"", Ok("hello"));
    test_string("\"hello world\"", Ok("hello world"));
    test_string(
        "\"hello world",
        Err(ParseError::MalformedString(
            "\"hello world".to_string(),
            ParseStringError::MissingEndOfString,
        )),
    );
}

#[test]
fn tests_entries() {
    assert_eq!(
        Entries::parse_lexer(&mut Lexer::from(r#"1 2 3"#)),
        Ok(Entries::from(vec![
            arg(0, int_val(1)),
            arg(1, int_val(2)),
            arg(2, int_val(3)),
        ]))
    );
    assert_eq!(
        Entries::parse_lexer(&mut Lexer::from(r#"1 abc 3.14"#)),
        Ok(Entries::from(vec![
            arg(0, int_val(1)),
            arg(1, str_val("abc")),
            arg(2, float_val("3.14")),
        ]))
    );
    assert_eq!(
        Entries::parse_lexer(&mut Lexer::from(r#"a=b c=d"#)),
        Ok(Entries::from(vec![
            prop("a", str_val("b")),
            prop("c", str_val("d")),
        ]))
    );
    assert_eq!(
        Entries::parse_lexer(&mut Lexer::from(r#"name1=123 name2=abc name3=3.14"#)),
        Ok(Entries::from(vec![
            prop("name1", int_val(123)),
            prop("name2", str_val("abc")),
            prop("name3", float_val("3.14")),
        ]))
    );
    assert_eq!(
        Entries::parse_lexer(&mut Lexer::from(r#"1=123 2=abc 3=3.14"#)),
        Ok(Entries::from(vec![
            arg(1, int_val(123)),
            arg(2, str_val("abc")),
            arg(3, float_val("3.14")),
        ]))
    );
    assert_eq!(
        Entries::parse_lexer(&mut Lexer::from(
            r#"1 2 3 a=4 b = 5 "p r o p"="v a l u e" 6 10=7"#
        )),
        Ok(Entries::from(vec![
            arg(0, int_val(1)),
            arg(1, int_val(2)),
            arg(2, int_val(3)),
            prop("a", int_val(4)),
            prop("b", int_val(5)),
            prop("p r o p", str_val("v a l u e")),
            arg(3, int_val(6)),
            arg(10, int_val(7)),
        ]))
    );
    assert_eq!(
        Entries::parse_lexer(&mut Lexer::from(r#"1="#)),
        Err(ParseError::MissingEntryValue)
    );
    assert_eq!(
        Entries::parse_lexer(&mut Lexer::from(r#"name="#)),
        Err(ParseError::MissingEntryValue)
    );
    assert_eq!(
        Entries::parse_lexer(&mut Lexer::from(r#"3.1=abc"#)),
        Err(ParseError::UnexpectedEntryIdentifier(Value::Float(
            "3.1".to_string()
        )))
    );
    assert_eq!(
        Entries::parse_lexer(&mut Lexer::from(r#"=abc"#)),
        Err(ParseError::MissingEntryIdentifier)
    );
    assert_eq!(
        Entries::parse_lexer(&mut Lexer::from(r#"1=abc =cba"#)),
        Err(ParseError::MissingEntryIdentifier)
    );
    assert_eq!(
        Entries::parse_lexer(&mut Lexer::from(r#"name=abc =cba"#)),
        Err(ParseError::MissingEntryIdentifier)
    );
    assert_eq!(
        Entries::parse_lexer(&mut Lexer::from(r#"name=abc [ ]"#)),
        Err(ParseError::UnexpectedToken(TokenType::EnterSquareBracket))
    );
}

#[test]
fn path_named_one() {
    assert_eq!(
        Path::parse("node_name").map(|p| p.nodes().clone()),
        Ok(vec![named("node_name")])
    );
}

#[test]
fn path_named_multi() {
    assert_eq!(
        Path::parse("node1/node2").map(|p| p.nodes().clone()),
        Ok(vec![named("node1"), named("node2")])
    );
}

#[test]
fn path_named_strings() {
    assert_eq!(
        Path::parse(r#""node 1"/"node 2""#).map(|p| p.nodes().clone()),
        Ok(vec![named("node 1"), named("node 2")])
    );
}

#[test]
fn path_ident_anywhere() {
    assert_eq!(
        Path::parse(r#"**/node1"#).map(|p| p.nodes().clone()),
        Ok(vec![Node::from(NodeKind::Anywhere), named("node1")])
    );
}

#[test]
fn path_ident_any() {
    assert_eq!(
        Path::parse(r#"*/node1"#).map(|p| p.nodes().clone()),
        Ok(vec![Node::from(NodeKind::Any), named("node1")])
    );
}

#[test]
fn path_ident_parents() {
    assert_eq!(
        Path::parse(r#"../node1"#).map(|p| p.nodes().clone()),
        Ok(vec![Node::from(NodeKind::Parent), named("node1")])
    );
}

#[test]
fn nodes_with_entries() {
    assert_eq!(
        Path::parse(r#"..[1]/node1[2]/*[3]/**[4]"#).map(|p| p.nodes().clone()),
        Ok(vec![
            Node {
                node: NodeKind::Parent,
                entries: Some(Entries::from(vec![arg(0, int_val(1))])),
                range: None,
            },
            Node {
                node: NodeKind::Named("node1".to_string()),
                entries: Some(Entries::from(vec![arg(0, int_val(2))])),
                range: None,
            },
            Node {
                node: NodeKind::Any,
                entries: Some(Entries::from(vec![arg(0, int_val(3))])),
                range: None,
            },
            Node {
                node: NodeKind::Anywhere,
                entries: Some(Entries::from(vec![arg(0, int_val(4))])),
                range: None,
            },
        ])
    );

    assert_eq!(
        Path::parse("node1[1][2]"),
        Err(ParseError::EntriesAlreadyDefined)
    );
    assert_eq!(
        Path::parse("node1 node2"),
        Err(ParseError::NodeAlreadyDefined)
    );
    assert_eq!(
        Path::parse("node1 node2 [1]"),
        Err(ParseError::NodeAlreadyDefined)
    );
    assert_eq!(
        Path::parse("node1 [1] node2"),
        Err(ParseError::NodeAlreadyDefined)
    );
    assert_eq!(Path::parse("node1/[1]"), Err(ParseError::MissingNode));
}

#[test]
fn alphanum() {
    let parse = parse_alphanumeric;
    assert_eq!(parse("123"), Ok(Value::Integer(123)));
    assert_eq!(parse("-123"), Ok(Value::Integer(-123)));
    assert_eq!(parse("0x123"), Ok(Value::Integer(0x123)));
    assert_eq!(parse("0b101"), Ok(Value::Integer(0b101)));
    assert_eq!(parse("0o123"), Ok(Value::Integer(0o123)));
    assert_eq!(parse("-0x123"), Ok(Value::Integer(-0x123)));
    assert_eq!(parse("-0b101"), Ok(Value::Integer(-0b101)));
    assert_eq!(parse("-0o123"), Ok(Value::Integer(-0o123)));
    assert_eq!(parse("1.23"), Ok(Value::Float("1.23".to_string())));
    assert_eq!(parse("-1.23"), Ok(Value::Float("-1.23".to_string())));
    assert_eq!(parse("1.2.3"), Err(ParseStringError::MalformedNumber));
    assert_eq!(parse("-1.2.3"), Err(ParseStringError::MalformedNumber));
    assert_eq!(parse("1c0"), Err(ParseStringError::MalformedNumber));
    assert_eq!(parse("-1c0"), Err(ParseStringError::MalformedNumber));
    assert_eq!(parse("abc"), Ok(Value::String("abc".to_string())));
    assert_eq!(parse("-abc"), Ok(Value::String("-abc".to_string())));
    assert_eq!(parse("a1c"), Ok(Value::String("a1c".to_string())));
    assert_eq!(parse("-a1c"), Ok(Value::String("-a1c".to_string())));
}

#[test]
fn strings() {
    let parse = parse_string;
    assert_eq!(parse(r#""""#), Ok("".to_string()));
    assert_eq!(parse(r#""abc""#), Ok("abc".to_string()));
    assert_eq!(parse(r#""a\nb\tc\rd\\e""#), Ok("a\nb\tc\rd\\e".to_string()));
    assert_eq!(parse(r#""aa\x41\x5Abb""#), Ok("aaAZbb".to_string()));
    assert_eq!(
        parse(r#""aa\u{4F60}\u{597D}\u{4E16}\u{754C}bb""#),
        Ok("aa\u{4F60}\u{597D}\u{4E16}\u{754C}bb".to_string())
    );
    assert_eq!(parse(r#""aa\bbb""#), Err(ParseStringError::UnknownEscape('b')));
    assert_eq!(parse(r#""aa\x89bb""#), Err(ParseStringError::AsciiNotValid(0x89)));
    assert_eq!(parse(r#""aa\xTRbb""#), Err(ParseStringError::NotHexDigit));
    assert_eq!(parse(r#""aa\u{DE01}bb""#), Err(ParseStringError::UnicodeNotValid(0xDE01)));
}

#[test]
fn ranges() {
    let make_node = |range| Node {
        node: NodeKind::Any,
        entries: None,
        range: Some(range),
    };
    let parse = |s| Path::parse(s).map(|v| v.nodes().clone());
    assert_eq!(parse("*{1}"), Ok(vec![make_node(Range::One(1))]));
    assert_eq!(parse("*{..2}"), Ok(vec![make_node(Range::To(2))]));
    assert_eq!(parse("*{1..}"), Ok(vec![make_node(Range::From(1))]));
    assert_eq!(parse("*{1..2}"), Ok(vec![make_node(Range::Both(1, 2))]));
    assert_eq!(parse("*{..}"), Ok(vec![make_node(Range::All)]));
    assert_eq!(
        parse("*{abc..}"),
        Err(ParseError::RangeExpectingInteger(Value::String(
            "abc".to_string()
        )))
    );
    assert_eq!(
        parse("*{..abc}"),
        Err(ParseError::RangeExpectingInteger(Value::String(
            "abc".to_string()
        )))
    );
    assert_eq!(
        parse("*{1.2..}"),
        Err(ParseError::RangeExpectingInteger(Value::Float(
            "1.2".to_string()
        )))
    );
    assert_eq!(
        parse("*{1..2..}"),
        Err(ParseError::UnexpectedToken(TokenType::DoublePoint))
    );
    assert_eq!(
        parse("*{..2..3}"),
        Err(ParseError::UnexpectedToken(TokenType::DoublePoint))
    );
    assert_eq!(parse("*{1 2}"), Err(ParseError::RangeMissingSeparator));
    assert_eq!(parse("*{}"), Err(ParseError::RangeEmpty));
}

#[test]
fn range_missing_end() {
    assert_eq!(
        Path::parse("*{1..2"),
        Err(ParseError::RangeMissingEnd)
    );
}

#[test]
fn keywords() {
    assert_eq!(parse_keyword("true"), Ok(Value::Boolean(true)));
    assert_eq!(parse_keyword("false"), Ok(Value::Boolean(false)));
    assert_eq!(parse_keyword("null"), Ok(Value::Null));
    assert_eq!(
        parse_keyword("yes"),
        Err(ParseError::UnknownKeyword("yes".to_string()))
    );
}

#[test]
fn wildcard_entry() {
    assert_eq!(
        Entries::parse_lexer(&mut Lexer::from("_ 2")),
        Ok(Entries::from(vec![arg(0, None), arg(1, int_val(2))]))
    );
    assert_eq!(
        Entries::parse_lexer(&mut Lexer::from("_ =x")),
        Err(ParseError::UndefinedEntryIdentifier)
    );
}

#[test]
fn leading_markers() {
    assert_eq!(
        Path::parse("/node1/node2").map(|p| p.nodes().clone()),
        Ok(vec![
            Node::from(NodeKind::Root),
            named("node1"),
            named("node2"),
        ])
    );
    assert_eq!(
        Path::parse("//node1").map(|p| p.nodes().clone()),
        Ok(vec![Node::from(NodeKind::Anywhere), named("node1")])
    );
    assert_eq!(
        Path::parse("node1//node2"),
        Err(ParseError::UnexpectedToken(TokenType::DoubleSlash))
    );
}

#[test]
fn display_round_trip_concrete() {
    let source = "article/section[1 2 name=intro]/paragraph{1..3}/";
    let path = Path::parse(source).unwrap();
    let shown = path.display();
    let again = Path::parse(shown.as_str()).unwrap();
    assert_eq!(path, again);
}

#[test]
fn display_forms() {
    assert_eq!(Value::Integer(-42).display(), "-42");
    assert_eq!(Value::String("abc".to_string()).display(), "abc");
    assert_eq!(Value::Float("3.14".to_string()).display(), "3.14");
    assert_eq!(Value::Boolean(true).display(), "#true");
    assert_eq!(Value::Null.display(), "#null");
    assert_eq!(Range::Both(1, 2).display(), "{1..2}");
    assert_eq!(Range::All.display(), "{..}");
    assert_eq!(NodeKind::Anywhere.display(), "**");
    let path = Path::parse("a/b[1 x=2]{0..4}").unwrap();
    assert_eq!(path.display(), "a/b[ 1 x=2 ]{0..4}/");
}

#[test]
fn error_variants() {
    assert_eq!(parse_string(""), Err(ParseStringError::EmptyString));
    assert_eq!(parse_string("hello"), Err(ParseStringError::MissingBeginOfString));
    assert_eq!(
        parse_string(r#""a\u{1234567}b""#),
        Err(ParseStringError::UnicodeMoreThanSixDigits)
    );
    assert_eq!(
        parse_string(r#""a\u{110000}b""#),
        Err(ParseStringError::UnicodeOutOfBound(0x110000))
    );
    assert_eq!(
        parse_string(r#""a\uXb""#),
        Err(ParseStringError::ExpectedCurlyBracket)
    );
    assert_eq!(
        Entries::parse_lexer(&mut Lexer::from("a = = b")),
        Err(ParseError::DoubleEqual)
    );
    assert_eq!(Path::parse("123"), Err(ParseError::NotANode));
    assert_eq!(Path::parse("a{1}{2}"), Err(ParseError::RangeAlreadyDefined));
}

#[test]
fn unescape_edge_forms() {
    // an escape left unfinished at the end of the interior is dropped
    assert_eq!(parse_string(r#""ab\x4""#), Ok("ab".to_string()));
    // a single quote does not close a double-quoted string
    let mut lexer = Lexer::from("'ab'");
    assert_eq!(lexer.next(), Some(TokenType::String("'ab'".to_string())));
    assert_eq!(
        parse_string("'ab'"),
        Err(ParseStringError::MissingBeginOfString)
    );
}

#[test]
fn alphanum_overflow_and_radix() {
    let parse = parse_alphanumeric;
    // one beyond the largest 128-bit value fails like any malformed number
    assert_eq!(
        parse("170141183460469231731687303715884105728"),
        Err(ParseStringError::MalformedNumber)
    );
    assert_eq!(
        parse("170141183460469231731687303715884105727"),
        Ok(Value::Integer(i128::MAX))
    );
    // the sign is read before the digits, so the most negative value
    // overflows the unsigned reading and is refused
    assert_eq!(
        parse("-170141183460469231731687303715884105728"),
        Err(ParseStringError::MalformedNumber)
    );
    // a sign inside the radix prefix is read by the digit parser itself
    assert_eq!(
        parse("0x-80000000000000000000000000000000"),
        Ok(Value::Integer(i128::MIN))
    );
    assert_eq!(parse("0xFF"), Ok(Value::Integer(255)));
    assert_eq!(parse("0x"), Err(ParseStringError::MalformedNumber));
    assert_eq!(parse("1.5e3"), Ok(Value::Float("1.5e3".to_string())));
    assert_eq!(parse("1.5e"), Err(ParseStringError::MalformedNumber));
}
