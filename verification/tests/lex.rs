use pipesh::lex::{terminates_unquoted_string, Error, Lexer, Tok};

#[test]
fn empty() {
    let mut lex = Lexer::new("");
    assert_eq!(lex.next(), None);
}

#[test]
fn string() {
    let mut lex = Lexer::new("string");
    assert_eq!(lex.next(), Some(Ok(Tok::String("string"))));
    assert_eq!(lex.next(), None);
}

#[test]
fn two_string() {
    let mut lex = Lexer::new("one two");
    assert_eq!(lex.next(), Some(Ok(Tok::String("one"))));
    assert_eq!(lex.next(), Some(Ok(Tok::String("two"))));
    assert_eq!(lex.next(), None);
}

#[test]
fn string_semicolon_string() {
    let mut lex = Lexer::new("one| two");
    assert_eq!(lex.next(), Some(Ok(Tok::String("one"))));
    assert_eq!(lex.next(), Some(Ok(Tok::Semicolon)));
    assert_eq!(lex.next(), Some(Ok(Tok::String("two"))));
    assert_eq!(lex.next(), None);
    let mut lex = Lexer::with_separator("one; two", ';');
    assert_eq!(lex.next(), Some(Ok(Tok::String("one"))));
    assert_eq!(lex.next(), Some(Ok(Tok::Semicolon)));
    assert_eq!(lex.next(), Some(Ok(Tok::String("two"))));
    assert_eq!(lex.next(), None);
}

#[test]
fn quoted_string() {
    let mut lex = Lexer::new(r#""foo bar""#);
    assert_eq!(lex.next(), Some(Ok(Tok::String("foo bar"))));
    assert_eq!(lex.next(), None);
}

#[test]
fn empty_quoted_string() {
    let mut lex = Lexer::new(r#""""#);
    assert_eq!(lex.next(), Some(Ok(Tok::String(""))));
    assert_eq!(lex.next(), None);
}

#[test]
fn quoted_strings_and_semicolons() {
    let mut lex = Lexer::new(r#"foo "bar baz" qux| one two "three" """#);
    assert_eq!(lex.next(), Some(Ok(Tok::String("foo"))));
    assert_eq!(lex.next(), Some(Ok(Tok::String("bar baz"))));
    assert_eq!(lex.next(), Some(Ok(Tok::String("qux"))));
    assert_eq!(lex.next(), Some(Ok(Tok::Semicolon)));
    assert_eq!(lex.next(), Some(Ok(Tok::String("one"))));
    assert_eq!(lex.next(), Some(Ok(Tok::String("two"))));
    assert_eq!(lex.next(), Some(Ok(Tok::String("three"))));
    assert_eq!(lex.next(), Some(Ok(Tok::String(""))));
    assert_eq!(lex.next(), None);
    let mut lex = Lexer::with_separator(r#"foo "bar baz" qux; one two "three" """#, ';');
    assert_eq!(lex.next(), Some(Ok(Tok::String("foo"))));
    assert_eq!(lex.next(), Some(Ok(Tok::String("bar baz"))));
    assert_eq!(lex.next(), Some(Ok(Tok::String("qux"))));
    assert_eq!(lex.next(), Some(Ok(Tok::Semicolon)));
    assert_eq!(lex.next(), Some(Ok(Tok::String("one"))));
    assert_eq!(lex.next(), Some(Ok(Tok::String("two"))));
    assert_eq!(lex.next(), Some(Ok(Tok::String("three"))));
    assert_eq!(lex.next(), Some(Ok(Tok::String(""))));
    assert_eq!(lex.next(), None);
}

fn collect(source: &str) -> Vec<Result<Tok<'_>, Error>> {
    let mut lex = Lexer::new(source);
    let mut items = Vec::new();
    while let Some(item) = lex.next() {
        items.push(item);
    }
    items
}

#[test]
fn only_blanks_hold_no_token() {
    assert_eq!(collect(" \t\r\n "), vec![]);
}

#[test]
fn blanks_of_every_kind_separate_words() {
    assert_eq!(
        collect("a\tb\rc\nd  e"),
        vec![
            Ok(Tok::String("a")),
            Ok(Tok::String("b")),
            Ok(Tok::String("c")),
            Ok(Tok::String("d")),
            Ok(Tok::String("e")),
        ]
    );
}

#[test]
fn quoted_word_keeps_blanks_and_separators() {
    assert_eq!(collect(r#""a b""#), vec![Ok(Tok::String("a b"))]);
    assert_eq!(collect(r#" "a| b"  "#), vec![Ok(Tok::String("a| b"))]);
}

#[test]
fn separator_ends_a_word_without_a_blank() {
    assert_eq!(
        collect("a|b||"),
        vec![
            Ok(Tok::String("a")),
            Ok(Tok::Semicolon),
            Ok(Tok::String("b")),
            Ok(Tok::Semicolon),
            Ok(Tok::Semicolon),
        ]
    );
}

#[test]
fn quote_inside_a_word_belongs_to_it() {
    assert_eq!(collect(r#"ab"cd e"#), vec![Ok(Tok::String(r#"ab"cd"#)), Ok(Tok::String("e"))]);
}

#[test]
fn adjacent_quoted_words_are_two_tokens() {
    assert_eq!(collect(r#""a""b""#), vec![Ok(Tok::String("a")), Ok(Tok::String("b"))]);
}

#[test]
fn unterminated_quote_is_an_error() {
    let mut lex = Lexer::new(r#""abc"#);
    assert_eq!(lex.next(), Some(Err(Error::UnterminatedString)));
    assert_eq!(lex.next(), None);
    let mut lex = Lexer::new(r#"""#);
    assert_eq!(lex.next(), Some(Err(Error::UnterminatedString)));
    assert_eq!(lex.next(), None);
}

#[test]
fn nothing_comes_after_an_error() {
    let mut lex = Lexer::new(r#"one "two three| four"#);
    assert_eq!(lex.next(), Some(Ok(Tok::String("one"))));
    assert_eq!(lex.next(), Some(Err(Error::UnterminatedString)));
    assert_eq!(lex.next(), None);
    assert_eq!(lex.next(), None);
    assert_eq!(lex.next(), None);
}

#[test]
fn words_that_are_not_ascii() {
    assert_eq!(
        collect("héllo \"wörld ü\" |ß"),
        vec![
            Ok(Tok::String("héllo")),
            Ok(Tok::String("wörld ü")),
            Ok(Tok::Semicolon),
            Ok(Tok::String("ß")),
        ]
    );
}

#[test]
fn what_ends_an_unquoted_word() {
    assert!(terminates_unquoted_string(' ', ';'));
    assert!(terminates_unquoted_string('\t', ';'));
    assert!(terminates_unquoted_string('\r', ';'));
    assert!(terminates_unquoted_string('\n', ';'));
    assert!(terminates_unquoted_string(';', ';'));
    assert!(!terminates_unquoted_string('"', ';'));
    assert!(!terminates_unquoted_string('a', ';'));
    assert!(!terminates_unquoted_string('|', ';'));
    assert!(terminates_unquoted_string('|', '|'));
    assert!(!terminates_unquoted_string(';', '|'));
}

#[test]
fn lexer_with_another_separator() {
    let mut lex = Lexer::with_separator("echo a|b;count \"x;y\"", ';');
    assert_eq!(lex.next(), Some(Ok(Tok::String("echo"))));
    assert_eq!(lex.next(), Some(Ok(Tok::String("a|b"))));
    assert_eq!(lex.next(), Some(Ok(Tok::Semicolon)));
    assert_eq!(lex.next(), Some(Ok(Tok::String("count"))));
    assert_eq!(lex.next(), Some(Ok(Tok::String("x;y"))));
    assert_eq!(lex.next(), None);
}

#[test]
fn semicolon_is_an_ordinary_character() {
    assert_eq!(collect("one; two"), vec![Ok(Tok::String("one;")), Ok(Tok::String("two"))]);
}

#[test]
fn lex_error_text() {
    assert_eq!(Error::UnterminatedString.description(), "Quoted string left unclosed.");
    assert_eq!(Error::UnterminatedString.to_string(), "Quoted string left unclosed.");
}

fn rejoined(source: &str) -> String {
    let mut words = Vec::new();
    for item in collect(source) {
        match item {
            Ok(Tok::String(word)) => words.push(word.to_string()),
            other => panic!("not a word: {:?}", other),
        }
    }
    pipesh::text::join(&words, " ")
}

#[test]
fn words_rejoined_are_the_collapsed_text() {
    assert_eq!(rejoined("  one \t two\r\n three  "), "one two three");
    assert_eq!(rejoined("one"), "one");
    assert_eq!(rejoined(""), "");
    assert_eq!(rejoined("   "), "");
    assert_eq!(rejoined("a  b"), "a b");
}
