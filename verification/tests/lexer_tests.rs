use kdl_query::lexer::{Lexer, TokenType};

fn string_tok(s: &str) -> TokenType {
    TokenType::String(s.to_string())
}

fn alnum_tok(s: &str) -> TokenType {
    TokenType::Alphanumeric(s.to_string())
}

#[test]
fn text() {
    let mut lexer = Lexer::from("\"hello\"");
    assert_eq!(lexer.next(), Some(string_tok("\"hello\"")));
    assert_eq!(lexer.next(), None);
}

#[test]
fn spaced_text() {
    let mut lexer = Lexer::from("   \"hello\"  ");
    assert_eq!(lexer.next(), Some(string_tok("\"hello\"")));
    assert_eq!(lexer.next(), None);
}

#[test]
fn wrong_text() {
    let mut lexer = Lexer::from("\"hello");
    assert_eq!(lexer.next(), Some(string_tok("\"hello")));
    assert_eq!(lexer.next(), None);
}

#[test]
fn text_escaped() {
    let mut lexer = Lexer::from(r#""hello\"world""#);
    assert_eq!(lexer.next(), Some(string_tok(r#""hello\"world""#)));
    assert_eq!(lexer.next(), None);
}

#[test]
fn multiple_text() {
    let mut lexer = Lexer::from(r#""hello" "world""#);
    assert_eq!(lexer.next(), Some(string_tok(r#""hello""#)));
    assert_eq!(lexer.next(), Some(string_tok(r#""world""#)));
    assert_eq!(lexer.next(), None);
}

#[test]
fn alpha() {
    let mut lexer = Lexer::from("abc");
    assert_eq!(lexer.next(), Some(alnum_tok("abc")));
    assert_eq!(lexer.next(), None);
}

#[test]
fn alphanumeric() {
    let mut lexer = Lexer::from("abc123");
    assert_eq!(lexer.next(), Some(alnum_tok("abc123")));
    assert_eq!(lexer.next(), None);
}

#[test]
fn numeric() {
    let mut lexer = Lexer::from("123");
    assert_eq!(lexer.next(), Some(alnum_tok("123")));
    assert_eq!(lexer.next(), None);
}

#[test]
fn numalpha() {
    let mut lexer = Lexer::from("123abc");
    assert_eq!(lexer.next(), Some(alnum_tok("123abc")));
    assert_eq!(lexer.next(), None);
}

#[test]
fn multiple_alpha() {
    let mut lexer = Lexer::from("abc def ghijk");
    assert_eq!(lexer.next(), Some(alnum_tok("abc")));
    assert_eq!(lexer.next(), Some(alnum_tok("def")));
    assert_eq!(lexer.next(), Some(alnum_tok("ghijk")));
    assert_eq!(lexer.next(), None);
}

#[test]
fn multiple_numeric() {
    let mut lexer = Lexer::from("123 456 10938");
    assert_eq!(lexer.next(), Some(alnum_tok("123")));
    assert_eq!(lexer.next(), Some(alnum_tok("456")));
    assert_eq!(lexer.next(), Some(alnum_tok("10938")));
    assert_eq!(lexer.next(), None);
}

#[test]
fn multiple_alphanumeric() {
    let mut lexer = Lexer::from("abc 4476 ghijk 73ab35");
    assert_eq!(lexer.next(), Some(alnum_tok("abc")));
    assert_eq!(lexer.next(), Some(alnum_tok("4476")));
    assert_eq!(lexer.next(), Some(alnum_tok("ghijk")));
    assert_eq!(lexer.next(), Some(alnum_tok("73ab35")));
    assert_eq!(lexer.next(), None);
}

#[test]
fn token_sqbrackets() {
    let mut lexer = Lexer::from("[]");
    assert_eq!(lexer.next(), Some(TokenType::EnterSquareBracket));
    assert_eq!(lexer.next(), Some(TokenType::LeaveSquareBracket));
    assert_eq!(lexer.next(), None);
}

#[test]
fn token_relatives() {
    let mut lexer = Lexer::from("/./../**/*");
    assert_eq!(lexer.next(), Some(TokenType::Slash));
    assert_eq!(lexer.next(), Some(TokenType::Point));
    assert_eq!(lexer.next(), Some(TokenType::Slash));
    assert_eq!(lexer.next(), Some(TokenType::DoublePoint));
    assert_eq!(lexer.next(), Some(TokenType::Slash));
    assert_eq!(lexer.next(), Some(TokenType::DoubleStar));
    assert_eq!(lexer.next(), Some(TokenType::Slash));
    assert_eq!(lexer.next(), Some(TokenType::Star));
    assert_eq!(lexer.next(), None);
}

#[test]
fn lexer_entries() {
    let mut lexer = Lexer::from(r#"[name=value 1 "2" name1 = value1 | name = value1]"#);
    assert_eq!(lexer.next(), Some(TokenType::EnterSquareBracket));
    assert_eq!(lexer.next(), Some(alnum_tok("name")));
    assert_eq!(lexer.next(), Some(TokenType::Equal));
    assert_eq!(lexer.next(), Some(alnum_tok("value")));
    assert_eq!(lexer.next(), Some(alnum_tok("1")));
    assert_eq!(lexer.next(), Some(string_tok(r#""2""#)));
    assert_eq!(lexer.next(), Some(alnum_tok("name1")));
    assert_eq!(lexer.next(), Some(TokenType::Equal));
    assert_eq!(lexer.next(), Some(alnum_tok("value1")));
    assert_eq!(lexer.next(), Some(TokenType::Pipe));
    assert_eq!(lexer.next(), Some(alnum_tok("name")));
    assert_eq!(lexer.next(), Some(TokenType::Equal));
    assert_eq!(lexer.next(), Some(alnum_tok("value1")));
    assert_eq!(lexer.next(), Some(TokenType::LeaveSquareBracket));
    assert_eq!(lexer.next(), None);
}

#[test]
fn token_curly_brackets() {
    let mut lexer = Lexer::from("{}");
    assert_eq!(lexer.next(), Some(TokenType::EnterCurlyBracket));
    assert_eq!(lexer.next(), Some(TokenType::LeaveCurlyBracket));
    assert_eq!(lexer.next(), None);
}

#[test]
fn numbers() {
    let mut lexer = Lexer::from("name 1 1.2 1.2.3 1..2");
    assert_eq!(lexer.next(), Some(alnum_tok("name")));
    assert_eq!(lexer.next(), Some(alnum_tok("1")));
    assert_eq!(lexer.next(), Some(alnum_tok("1.2")));
    assert_eq!(lexer.next(), Some(alnum_tok("1.2.3")));
    assert_eq!(lexer.next(), Some(alnum_tok("1")));
    assert_eq!(lexer.next(), Some(TokenType::DoublePoint));
    assert_eq!(lexer.next(), Some(alnum_tok("2")));
    assert_eq!(lexer.next(), None);
}

#[test]
fn underscore_token() {
    let mut lexer = Lexer::from("_ _a a_b");
    assert_eq!(lexer.next(), Some(alnum_tok("_")));
    assert_eq!(lexer.next(), Some(alnum_tok("_a")));
    assert_eq!(lexer.next(), Some(alnum_tok("a_b")));
    assert_eq!(lexer.next(), None);
}

#[test]
fn unknown_token_display() {
    let mut lexer = Lexer::from("a % b");
    assert_eq!(lexer.next(), Some(alnum_tok("a")));
    let unknown = lexer.next().unwrap();
    assert_eq!(unknown, TokenType::Unknown("%".to_string()));
    assert_eq!(unknown.display(), "<unknown: %>");
    assert_eq!(lexer.next(), Some(alnum_tok("b")));
    assert_eq!(lexer.next(), None);
}
