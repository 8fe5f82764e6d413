use pipesh::lex;
use pipesh::lex::Lexer;
use pipesh::parse::{parse, Cmd, Error};

fn parse_semicolons(source: &str) -> Result<Vec<Cmd<'_>>, Error> {
    parse(Lexer::with_separator(source, ';'))
}

#[test]
fn test_parse() {
    assert_eq!(parse(Lexer::new("foo")), Ok(vec![Cmd(vec!["foo"])]));
    assert_eq!(parse(Lexer::new("foo bar")), Ok(vec![Cmd(vec!["foo", "bar"])]));
    assert_eq!(
        parse(Lexer::new("foo bar| baz")),
        Ok(vec![Cmd(vec!["foo", "bar"]), Cmd(vec!["baz"])])
    );
    assert_eq!(
        parse(Lexer::new("foo bar| baz|| qux")),
        Ok(vec![Cmd(vec!["foo", "bar"]), Cmd(vec!["baz"]), Cmd(vec![]), Cmd(vec!["qux"])])
    );
    assert_eq!(parse_semicolons("foo"), Ok(vec![Cmd(vec!["foo"])]));
    assert_eq!(parse_semicolons("foo bar"), Ok(vec![Cmd(vec!["foo", "bar"])]));
    assert_eq!(
        parse_semicolons("foo bar; baz"),
        Ok(vec![Cmd(vec!["foo", "bar"]), Cmd(vec!["baz"])])
    );
    assert_eq!(
        parse_semicolons("foo bar; baz;; qux"),
        Ok(vec![Cmd(vec!["foo", "bar"]), Cmd(vec!["baz"]), Cmd(vec![]), Cmd(vec!["qux"])])
    );
}

#[test]
fn empty_line_is_one_empty_stage() {
    assert_eq!(parse(Lexer::new("")), Ok(vec![Cmd(vec![])]));
    assert_eq!(parse(Lexer::new("  \t ")), Ok(vec![Cmd::new()]));
}

#[test]
fn k_separators_make_k_plus_one_stages() {
    assert_eq!(parse(Lexer::new("|")).map(|cmds| cmds.len()), Ok(2));
    assert_eq!(parse(Lexer::new("a|b|c")).map(|cmds| cmds.len()), Ok(3));
    assert_eq!(
        parse(Lexer::new("|||")),
        Ok(vec![Cmd(vec![]), Cmd(vec![]), Cmd(vec![]), Cmd(vec![])])
    );
    assert_eq!(parse(Lexer::new("a b c")).map(|cmds| cmds.len()), Ok(1));
    assert_eq!(parse(Lexer::new("a;b;c")).map(|cmds| cmds.len()), Ok(1));
}

#[test]
fn quoted_separator_is_a_word() {
    assert_eq!(parse(Lexer::new(r#"a "|" b"#)), Ok(vec![Cmd(vec!["a", "|", "b"])]));
}

#[test]
fn unterminated_quote_fails_the_whole_line() {
    assert_eq!(
        parse(Lexer::new(r#"foo bar| "baz"#)),
        Err(Error::LexError(lex::Error::UnterminatedString))
    );
    assert_eq!(
        parse(Lexer::new(r#"" | a b c"#)),
        Err(Error::LexError(lex::Error::UnterminatedString))
    );
}

#[test]
fn parse_goes_on_from_where_the_lexer_stands() {
    let mut lexer = Lexer::new("skipped kept| more");
    assert_eq!(lexer.next(), Some(Ok(lex::Tok::String("skipped"))));
    assert_eq!(parse(lexer), Ok(vec![Cmd(vec!["kept"]), Cmd(vec!["more"])]));
}

#[test]
fn parse_error_text_and_conversion() {
    let error = Error::from(lex::Error::UnterminatedString);
    assert_eq!(error, Error::LexError(lex::Error::UnterminatedString));
    assert_eq!(error.description(), "Quoted string left unclosed.");
    assert_eq!(error.to_string(), "Quoted string left unclosed.");
}
