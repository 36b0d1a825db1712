use tk::parse::Error;
use tk::parse::Parser;
use tk::parse::Variable;
use tk::parse::Word;
use tk::parse::is_variable_name;
use tk::token;

#[test]
fn test_is_variable_name() {
    assert!(is_variable_name(&String::from("LS_COLORS")));
    assert!(is_variable_name(&String::from("var")));
    assert!(!is_variable_name(&String::from("1var")));
    assert!(!is_variable_name(&String::from("var-var")));
}

#[test]
fn test_parser() {
    let s = "";
    let mut parser = Parser::new(s);

    assert_eq!(parser.parse(), Ok(Vec::new()));

    let s = "   ls   ";
    let mut parser = Parser::new(s);

    assert_eq!(parser.parse(), Ok(vec![Word::String(String::from("ls"))]));

    let s = "  LS_COLOR='*.rs=38;5;81'    ls -ABFHhov    --color=auto  ";

    let mut parser = Parser::new(s);

    assert_eq!(
        parser.parse(),
        Ok(vec![
            Word::Variable(Variable {
                name: String::from("LS_COLOR"),
                value: String::from("*.rs=38;5;81")
            }),
            Word::String(String::from("ls")),
            Word::String(String::from("-ABFHhov")),
            Word::String(String::from("--color=auto"))
        ])
    );

    let s = "ls | grep -i file && head || tail";

    let mut parser = Parser::new(s);

    assert_eq!(
        parser.parse(),
        Ok(vec![
            Word::String(String::from("ls")),
            Word::Pipe,
            Word::String(String::from("grep")),
            Word::String(String::from("-i")),
            Word::String(String::from("file")),
            Word::And,
            Word::String(String::from("head")),
            Word::Or,
            Word::String(String::from("tail")),
        ])
    );
}

#[test]
fn test_single_word() {
    let mut parser = Parser::new("ls");

    assert_eq!(parser.parse(), Ok(vec![Word::String(String::from("ls"))]));
}

#[test]
fn test_blank_lines() {
    let mut parser = Parser::new("   \t  ");

    assert_eq!(parser.parse(), Ok(Vec::new()));
}

#[test]
fn test_assignment_then_command() {
    let mut parser = Parser::new("LS_COLOR='*.rs=38;5;81' ls -ABFHhov --color=auto");

    assert_eq!(
        parser.parse(),
        Ok(vec![
            Word::Variable(Variable {
                name: String::from("LS_COLOR"),
                value: String::from("*.rs=38;5;81")
            }),
            Word::String(String::from("ls")),
            Word::String(String::from("-ABFHhov")),
            Word::String(String::from("--color=auto"))
        ])
    );
}

#[test]
fn test_unterminated_single_quote() {
    let mut parser = Parser::new("echo 'abc");

    assert_eq!(
        parser.parse(),
        Err(Error::TokenErr(token::Error::UnterminatedQuote))
    );
}

#[test]
fn test_unterminated_double_quote() {
    let mut parser = Parser::new("echo \"abc");

    assert_eq!(parser.parse(), Err(Error::UnterminatedQuote));
}

#[test]
fn test_trailing_backslash() {
    let mut parser = Parser::new("echo \\");

    assert_eq!(
        parser.parse(),
        Err(Error::TokenErr(token::Error::DanglingEscape))
    );
}

#[test]
fn test_dangling_equals() {
    let mut parser = Parser::new("= foo");

    assert_eq!(parser.parse(), Err(Error::DanglingEquals));
}

#[test]
fn test_escape_resolved_in_plain_word() {
    let mut parser = Parser::new("a\\ b");

    assert_eq!(parser.parse(), Ok(vec![Word::String(String::from("a b"))]));
}

#[test]
fn test_double_quoted_segment_concatenates() {
    let mut parser = Parser::new("--color=\"auto\"");

    assert_eq!(
        parser.parse(),
        Ok(vec![Word::String(String::from("--color=auto"))])
    );
}

#[test]
fn test_empty_quoted_word() {
    let mut parser = Parser::new("''");

    assert_eq!(parser.parse(), Ok(vec![Word::String(String::from(""))]));
}

#[test]
fn test_double_quoted_escape() {
    let mut parser = Parser::new("say \"a\\\"b\"");

    assert_eq!(
        parser.parse(),
        Ok(vec![
            Word::String(String::from("say")),
            Word::String(String::from("a\"b")),
        ])
    );
}

#[test]
fn test_operators_without_spaces() {
    let mut parser = Parser::new("head&&tail");

    assert_eq!(
        parser.parse(),
        Ok(vec![
            Word::String(String::from("head")),
            Word::And,
            Word::String(String::from("tail")),
        ])
    );
}

#[test]
fn test_lone_ampersand_and_semicolon_terminate() {
    let mut parser = Parser::new("a & b ; c");

    assert_eq!(
        parser.parse(),
        Ok(vec![
            Word::String(String::from("a")),
            Word::Terminator,
            Word::String(String::from("b")),
            Word::Terminator,
            Word::String(String::from("c")),
        ])
    );
}

#[test]
fn test_requoted_words_parse_alike() {
    // Re-applying single quotes around each word's literal text and
    // re-parsing yields the same word sequence.
    let mut plain = Parser::new("ls -l");
    let mut requoted = Parser::new("'ls' '-l'");

    assert_eq!(plain.parse(), requoted.parse());
}

#[test]
fn test_requoted_assignment_parses_alike() {
    let mut plain = Parser::new("FOO=bar ls && wc");
    let mut requoted = Parser::new("FOO='bar' 'ls' && 'wc'");

    assert_eq!(plain.parse(), requoted.parse());
}
