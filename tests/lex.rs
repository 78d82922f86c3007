use rackc::lex::{is_separator, is_whitespace, parse_int, TEXT_LIMIT};
use rackc::{Keyword, Lexer, TokenKind, UnknownKeywordError};

fn chars(s: &str) -> Vec<char> {
    s.chars().collect()
}

#[test]
fn lex_trim_left() {
    let mut l = Lexer::new("\n\n  \n\thello\n", None);
    l.trim_left();
    assert_eq!(l.line(), 4);
    assert_eq!(l.line_begin(), 5);
    assert_eq!(l.cursor(), 6);
    assert_eq!(l.content(), chars("\n\n  \n\thello\n").as_slice());
    let loc = l.location();
    assert_eq!(loc.file, None);
    assert_eq!(loc.pos, (4, 2));
}

#[test]
fn lex_tokens_of_a_function() {
    let mut l = Lexer::new("fn main in 34 35 + print end\n", Some("a.rk"));
    let kinds: Vec<TokenKind> = std::iter::from_fn(|| l.next()).map(|t| t.kind).collect();
    assert_eq!(
        kinds,
        vec![
            TokenKind::Keyword(Keyword::Fn),
            TokenKind::Identifier,
            TokenKind::Keyword(Keyword::In),
            TokenKind::Int(34),
            TokenKind::Int(35),
            TokenKind::Keyword(Keyword::Plus),
            TokenKind::Keyword(Keyword::Print),
            TokenKind::Keyword(Keyword::End),
        ]
    );
}

#[test]
fn lex_token_text_and_location() {
    let mut l = Lexer::new("  fn\n  hello", Some("x.rk"));
    let t = l.next().unwrap();
    assert_eq!(t.value, "fn");
    assert_eq!(t.location.pos, (1, 3));
    assert_eq!(t.location.file.as_deref(), Some("x.rk"));
    let t = l.next().unwrap();
    assert_eq!(t.value, "hello");
    assert_eq!(t.kind, TokenKind::Identifier);
    assert_eq!(t.location.pos, (2, 3));
    assert!(l.next().is_none());
}

#[test]
fn lex_separators_split_words() {
    let mut l = Lexer::new("1+2-x", None);
    let values: Vec<String> = std::iter::from_fn(|| l.next()).map(|t| t.value).collect();
    assert_eq!(values, vec!["1", "+", "2", "-", "x"]);
}

#[test]
fn lex_string_and_char_literals() {
    let mut l = Lexer::new("\"hi there\" 'a' ", None);
    let t = l.next().unwrap();
    assert_eq!(t.kind, TokenKind::String);
    assert_eq!(t.value, "\"hi there\"");
    let t = l.next().unwrap();
    assert_eq!(t.kind, TokenKind::Char);
    assert_eq!(t.value, "'a'");
}

#[test]
fn lex_unterminated_string_ends_the_tokens() {
    let mut l = Lexer::new("  \"abc", None);
    assert!(l.next().is_none());
    assert_eq!(l.cursor(), 2);
}

#[test]
fn lex_comments_are_skipped() {
    let mut l = Lexer::new("// a comment\n1 // another\n2", None);
    let t = l.next().unwrap();
    assert_eq!(t.kind, TokenKind::Int(1));
    assert_eq!(t.location.pos, (2, 1));
    let t = l.next().unwrap();
    assert_eq!(t.kind, TokenKind::Int(2));
    assert_eq!(t.location.pos, (3, 1));
    assert!(l.next().is_none());
}

#[test]
fn lex_int_literals() {
    assert_eq!(parse_int(&chars("4")), Some(4));
    assert_eq!(parse_int(&chars("0x1a3")), Some(0x1a3));
    assert_eq!(parse_int(&chars("0xFF")), Some(255));
    assert_eq!(parse_int(&chars("0o4")), Some(4));
    assert_eq!(parse_int(&chars("0b0101")), Some(5));
    assert_eq!(parse_int(&chars("18446744073709551615")), Some(u64::MAX));
    assert_eq!(parse_int(&chars("18446744073709551616")), None);
    assert_eq!(parse_int(&chars("0x")), None);
    assert_eq!(parse_int(&chars("0b2")), None);
    assert_eq!(parse_int(&chars("12a")), None);
    assert_eq!(parse_int(&chars("")), None);
    assert_eq!(parse_int(&chars("+5")), None);
    assert_eq!(parse_int(&chars("0x+1a")), None);
    assert_eq!(parse_int(&chars("-1")), None);
}

#[test]
fn lex_keywords() {
    assert_eq!(Keyword::from_chars(&chars("divmod")), Ok(Keyword::DivMod));
    assert_eq!(Keyword::from_chars(&chars("!=")), Ok(Keyword::Neq));
    assert_eq!(Keyword::from_chars(&chars("@")), Ok(Keyword::ReadByte));
    assert_eq!(Keyword::from_chars(&chars("main")), Err(UnknownKeywordError));
    assert_eq!(Keyword::DivMod.to_string(), "divmod");
    assert_eq!(Keyword::Peek.text(), chars("peek"));
}

#[test]
fn lex_character_classes() {
    assert!(is_whitespace(' '));
    assert!(is_whitespace('\u{3000}'));
    assert!(!is_whitespace('a'));
    assert!(is_separator('%'));
    assert!(!is_separator('='));
    assert!(TEXT_LIMIT > 1 << 40);
}
