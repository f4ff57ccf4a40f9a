//! Line-number oriented checks over the lexer: each scanned token
//! carries the kind, the 1-based source line where it starts, and its
//! lexeme.

use mbplox::lex::{lex, Tok, Token};

fn lex_tokens(s: &str) -> Vec<Token> {
    lex(s).into_iter().map(Result::unwrap).collect()
}

fn assert_token(token: &Token, tok: Tok, line: usize, lexeme: &str) {
    assert_eq!(token.tok, tok);
    assert_eq!(token.place.line, line);
    assert_eq!(token.lexeme, lexeme);
}

fn num(text: &str) -> Tok {
    Tok::Number(text.to_owned())
}

#[test]
fn scanner_can_scan_integer() {
    let tokens = lex_tokens("12345");
    assert_eq!(tokens.len(), 1);
    assert_token(&tokens[0], num("12345"), 1, "12345");
    match &tokens[0].tok {
        Tok::Number(text) => assert_eq!(text.parse::<f64>().unwrap(), 12345.0),
        other => panic!("expected a number token, got {:?}", other),
    }
}

#[test]
fn scanner_integer_followed_by_dot_is_not_float() {
    assert_eq!(
        lex_tokens("1234.")
            .into_iter()
            .map(|t| t.tok)
            .collect::<Vec<Tok>>(),
        vec![num("1234"), Tok::Dot]
    );
}

#[test]
fn scanner_decimal_float() {
    assert_eq!(
        lex_tokens("3.1415")
            .into_iter()
            .map(|t| t.tok)
            .collect::<Vec<Tok>>(),
        vec![num("3.1415")]
    );
}

#[test]
fn scanner_skip_comments() {
    let tokens = lex_tokens("1\n// two would be here\n\n3.000\n\n// the end!\n");
    assert_eq!(tokens.len(), 2);
    assert_token(&tokens[0], num("1"), 1, "1");
    assert_token(&tokens[1], num("3.000"), 4, "3.000");
}

#[test]
fn scanner_just_a_comment() {
    assert_eq!(lex_tokens("// nothing else, not even a newline"), vec![]);
}

#[test]
fn scanner_just_some_comments() {
    assert_eq!(lex_tokens("// a comment\n\n\n// then another\n"), vec![]);
}

#[test]
fn scanner_simple_string() {
    let tokens = lex_tokens(r#""hello Lox?""#);
    assert_eq!(tokens.len(), 1);
    assert_token(
        &tokens[0],
        Tok::String("hello Lox?".to_owned()),
        1,
        r#""hello Lox?""#,
    );
}

#[test]
fn scanner_multi_line_string_has_line_number_of_start() {
    let src = "\"one\nokapi\ntwo\n\"";
    let tokens = lex_tokens(src);
    assert_eq!(tokens.len(), 1);
    assert_token(
        &tokens[0],
        Tok::String("one\nokapi\ntwo\n".to_owned()),
        1,
        src,
    );
}
