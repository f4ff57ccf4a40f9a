//! The lexer's behavior on whole source strings: tokens, errors,
//! positions and lexemes.

use mbplox::lex::{lex, Error, ErrorKind, Tok, Token};
use mbplox::place::Place;

fn lex_tokens(s: &str) -> Vec<Token> {
    lex(s).into_iter().map(Result::unwrap).collect()
}

fn lex_toks(s: &str) -> Vec<Tok> {
    lex_tokens(s).into_iter().map(|t| t.tok).collect()
}

fn num(text: &str) -> Tok {
    Tok::Number(text.to_owned())
}

#[test]
fn lex_can_scan_integer() {
    let tokens = lex_tokens("12345");
    assert_eq!(
        tokens,
        &[Token {
            tok: num("12345"),
            place: Place::new(1, 1),
            lexeme: "12345".to_owned(),
        }],
    );
    match &tokens[0].tok {
        Tok::Number(text) => assert_eq!(text.parse::<f64>().unwrap(), 12345.0),
        other => panic!("expected a number token, got {:?}", other),
    }
}

#[test]
fn lex_integer_followed_by_dot_is_not_float() {
    assert_eq!(lex_toks("1234."), vec![num("1234"), Tok::Dot]);
}

#[test]
fn lex_decimal_float() {
    let toks = lex_toks("3.1415");
    assert_eq!(toks, vec![num("3.1415")]);
    match &toks[0] {
        Tok::Number(text) => assert_eq!(text.parse::<f64>().unwrap(), 3.1415),
        other => panic!("expected a number token, got {:?}", other),
    }
}

#[test]
fn lex_skip_comments() {
    assert_eq!(
        lex_tokens("1\n// two would be here\n\n    3.000\n\n// the end!\n"),
        vec![
            Token {
                tok: num("1"),
                place: Place::new(1, 1),
                lexeme: "1".to_owned(),
            },
            Token {
                tok: num("3.000"),
                place: Place::new(4, 5),
                lexeme: "3.000".to_owned(),
            },
        ]
    );
}

#[test]
fn lex_just_a_comment() {
    assert_eq!(lex_tokens("// nothing else, not even a newline"), vec![]);
}

#[test]
fn lex_just_some_comments() {
    assert_eq!(lex_tokens("// a comment\n\n\n// then another\n"), vec![]);
}

#[test]
fn lex_simple_string() {
    assert_eq!(
        lex_tokens(r#""hello Lox?""#),
        vec![Token {
            tok: Tok::String("hello Lox?".to_owned()),
            place: Place::new(1, 1),
            lexeme: r#""hello Lox?""#.to_owned(),
        }]
    );
}

#[test]
fn lex_multi_line_string_has_line_number_of_start() {
    let src = "\"one\nokapi\ntwo\n\"";
    assert_eq!(
        lex_tokens(src),
        vec![Token {
            tok: Tok::String("one\nokapi\ntwo\n".to_owned()),
            place: Place::new(1, 1),
            lexeme: src.to_owned(),
        }]
    );
}

#[test]
fn unterminated_string_error() {
    assert_eq!(
        lex("\"going along..."),
        [Err(Error {
            kind: ErrorKind::UnterminatedString,
            place: Place::file_start(),
        })]
    );
}

#[test]
fn words_and_keywords() {
    let src = "true false maybe __secret__";
    assert_eq!(
        lex_toks(src),
        [
            Tok::True,
            Tok::False,
            Tok::Identifier("maybe".to_owned()),
            Tok::Identifier("__secret__".to_owned()),
        ]
    );
}

#[test]
fn operators() {
    let src = "+-*/";
    assert_eq!(
        lex_toks(src),
        [Tok::Plus, Tok::Minus, Tok::Star, Tok::Slash]
    );
}

#[test]
fn column_positions_understand_tabs() {
    let tokens = lex_tokens(
        "
\tone_tab
\t\ttwo_tabs
\t\t    two_tabs_and_space
    \ttab_after_spaces
between\tthese\t\twords
    ",
    );
    assert_eq!(tokens.len(), 7);
    assert!(tokens
        .iter()
        .all(|token| matches!(token.tok, Tok::Identifier(_))));
    assert_eq!(
        tokens
            .iter()
            .map(|t| (t.place.line, t.place.column))
            .collect::<Vec<_>>(),
        &[(2, 9), (3, 17), (4, 21), (5, 9), (6, 1), (6, 9), (6, 25)]
    );
}

#[test]
fn ignore_shebang() {
    // Only the very first line can be a shebang; a second `#!` line is
    // lexed like any other text.
    let ident = |name: &str, line: usize, column: usize| {
        Ok(Token {
            tok: Tok::Identifier(name.to_owned()),
            place: Place::new(line, column),
            lexeme: name.to_owned(),
        })
    };
    assert_eq!(
        lex("#! mbplox --yolo\n#! maybe also a second line\n123\n"),
        [
            Err(Error {
                place: Place::new(2, 1),
                kind: ErrorKind::UnexpectedCharacter('#'),
            }),
            Ok(Token {
                tok: Tok::Bang,
                place: Place::new(2, 2),
                lexeme: "!".to_owned(),
            }),
            ident("maybe", 2, 4),
            ident("also", 2, 10),
            ident("a", 2, 15),
            ident("second", 2, 17),
            ident("line", 2, 24),
            Ok(Token {
                tok: num("123"),
                place: Place::new(3, 1),
                lexeme: "123".to_owned(),
            }),
        ]
    );
}

#[test]
fn lex_result_mixes_tokens_and_multiple_errors_in_order() {
    let unexpected_hash = ErrorKind::UnexpectedCharacter('#');
    assert_eq!(
        lex("hash##bang\n"),
        [
            Ok(Token {
                tok: Tok::Identifier("hash".to_owned()),
                place: Place::new(1, 1),
                lexeme: "hash".to_owned(),
            }),
            Err(Error {
                place: Place::new(1, 5),
                kind: unexpected_hash.clone(),
            }),
            Err(Error {
                place: Place::new(1, 6),
                kind: unexpected_hash,
            }),
            Ok(Token {
                tok: Tok::Identifier("bang".to_owned()),
                place: Place::new(1, 7),
                lexeme: "bang".to_owned(),
            }),
        ]
    );
}
