use tk::token::Error;
use tk::token::Token;
use tk::token::Tokenizer;

#[test]
fn test_tokenizer() {
    let s = "";
    let mut tokenizer = Tokenizer::new(s);

    assert_eq!(tokenizer.next(), Err(Error::Eos),);

    let s = "echo   ";
    let mut tokenizer = Tokenizer::new(s);

    assert_eq!(tokenizer.next(), Ok(Token::String { start: 0, end: 4 }));
    assert_eq!(tokenizer.next(), Ok(Token::Spaces { start: 4, end: 7 }));
    assert_eq!(tokenizer.next(), Err(Error::Eos));

    let s = r#"  LS_COLORS='*.rs=38;5;81' var=hoge   haskellorls   '-ABFHhov'   "--color=auto"  --time-style=iso"#;
    let mut tokenizer = Tokenizer::new(s);

    assert_eq!(tokenizer.next(), Ok(Token::Spaces { start: 0, end: 2 }));
    // LS_COLORS
    assert_eq!(tokenizer.next(), Ok(Token::String { start: 2, end: 11 }));
    assert_eq!(tokenizer.next(), Ok(Token::Equal));
    // '*.rs=38;5;81'
    assert_eq!(tokenizer.next(), Ok(Token::QuotedString { start: 13, end: 25 }));
    assert_eq!(tokenizer.next(), Ok(Token::Spaces { start: 26, end: 27 }));
    // var
    assert_eq!(tokenizer.next(), Ok(Token::String { start: 27, end: 30 }));
    assert_eq!(tokenizer.next(), Ok(Token::Equal));
    // hoge
    assert_eq!(tokenizer.next(), Ok(Token::String { start: 31, end: 35 }));
    assert_eq!(tokenizer.next(), Ok(Token::Spaces { start: 35, end: 38 }));
    // haskellorls
    assert_eq!(tokenizer.next(), Ok(Token::String { start: 38, end: 49 }));
    assert_eq!(tokenizer.next(), Ok(Token::Spaces { start: 49, end: 52 }));
    // '-ABFHhov'
    assert_eq!(tokenizer.next(), Ok(Token::QuotedString { start: 53, end: 61 }));
    assert_eq!(tokenizer.next(), Ok(Token::Spaces { start: 62, end: 65 }));
    // "--color=auto"
    assert_eq!(tokenizer.next(), Ok(Token::DoubleQuote));
    assert_eq!(tokenizer.next(), Ok(Token::String { start: 66, end: 73 }));
    assert_eq!(tokenizer.next(), Ok(Token::Equal));
    assert_eq!(tokenizer.next(), Ok(Token::String { start: 74, end: 78 }));
    assert_eq!(tokenizer.next(), Ok(Token::DoubleQuote));
    assert_eq!(tokenizer.next(), Ok(Token::Spaces { start: 79, end: 81 }));
    // --time-style
    assert_eq!(tokenizer.next(), Ok(Token::String { start: 81, end: 93 }));
    assert_eq!(tokenizer.next(), Ok(Token::Equal));
    // iso
    assert_eq!(tokenizer.next(), Ok(Token::String { start: 94, end: 97 }));
    assert_eq!(tokenizer.next(), Err(Error::Eos),);
}

#[test]
fn test_peek_does_not_advance() {
    let s = "ls -l";
    let mut tokenizer = Tokenizer::new(s);

    assert_eq!(tokenizer.peek_token(), Ok(Token::String { start: 0, end: 2 }));
    assert_eq!(tokenizer.peek_token(), Ok(Token::String { start: 0, end: 2 }));
    assert_eq!(tokenizer.next(), Ok(Token::String { start: 0, end: 2 }));
    assert_eq!(tokenizer.next(), Ok(Token::Spaces { start: 2, end: 3 }));
}

#[test]
fn test_eat_token() {
    let s = "&&x";
    let mut tokenizer = Tokenizer::new(s);

    assert!(!tokenizer.eat_token(Token::VerticalBar));
    assert!(tokenizer.eat_token(Token::Ampersand));
    assert!(tokenizer.eat_token(Token::Ampersand));
    assert!(!tokenizer.eat_token(Token::Ampersand));
    assert_eq!(tokenizer.next(), Ok(Token::String { start: 2, end: 3 }));
}

#[test]
fn test_unterminated_single_quote_is_a_lexer_error() {
    let mut tokenizer = Tokenizer::new("'abc");

    assert_eq!(tokenizer.next(), Err(Error::UnterminatedQuote));
}

#[test]
fn test_trailing_backslash_is_a_lexer_error() {
    let mut tokenizer = Tokenizer::new("echo \\");

    assert_eq!(tokenizer.next(), Ok(Token::String { start: 0, end: 4 }));
    assert_eq!(tokenizer.next(), Ok(Token::Spaces { start: 4, end: 5 }));
    assert_eq!(tokenizer.next(), Err(Error::DanglingEscape));
}

#[test]
fn test_escape_joins_raw_text() {
    // The backslash escapes the space: one raw run spans all four characters.
    let mut tokenizer = Tokenizer::new("a\\ b");

    assert_eq!(tokenizer.next(), Ok(Token::String { start: 0, end: 4 }));
    assert_eq!(tokenizer.next(), Err(Error::Eos));
}

#[test]
fn test_token_char_conversions() {
    assert_eq!(Token::from_char('&'), Some(Token::Ampersand));
    assert_eq!(Token::from_char(';'), Some(Token::Semicolon));
    assert_eq!(Token::from_char('a'), None);
    assert_eq!(Token::Ampersand.to_char(), Some('&'));
    assert_eq!(Token::Tilda.to_char(), Some('~'));
    assert_eq!(Token::Spaces { start: 0, end: 1 }.to_char(), None);
}
