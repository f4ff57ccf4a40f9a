//! Error recovery and source positions: unexpected characters,
//! unterminated strings, shebang recognition, and tab-aware columns.

use mbplox::lex::{lex, Error, ErrorKind, Tok, Token};
use mbplox::place::Place;

fn lex_tokens(s: &str) -> Vec<Token> {
    lex(s).into_iter().map(Result::unwrap).collect()
}

#[test]
fn each_unexpected_character_is_its_own_error() {
    assert_eq!(
        lex("@@"),
        vec![
            Err(Error {
                place: Place::new(1, 1),
                kind: ErrorKind::UnexpectedCharacter('@'),
            }),
            Err(Error {
                place: Place::new(1, 2),
                kind: ErrorKind::UnexpectedCharacter('@'),
            }),
        ]
    );
}

#[test]
fn scanning_resumes_after_an_error() {
    let results = lex("1 @ 2");
    assert_eq!(results.len(), 3);
    assert!(results[0].is_ok());
    assert_eq!(
        results[1],
        Err(Error {
            place: Place::new(1, 3),
            kind: ErrorKind::UnexpectedCharacter('@'),
        })
    );
    assert_eq!(
        results[2].as_ref().unwrap().tok,
        Tok::Number("2".to_owned())
    );
}

#[test]
fn unterminated_string_spanning_lines_is_one_error() {
    assert_eq!(
        lex("\"ab\ncd"),
        vec![Err(Error {
            place: Place::new(1, 1),
            kind: ErrorKind::UnterminatedString,
        })]
    );
}

#[test]
fn hash_not_at_line_start_is_unexpected() {
    let results = lex("x #!y\n");
    assert_eq!(results.len(), 4);
    assert_eq!(
        results[0].as_ref().unwrap().tok,
        Tok::Identifier("x".to_owned())
    );
    assert_eq!(
        results[1],
        Err(Error {
            place: Place::new(1, 3),
            kind: ErrorKind::UnexpectedCharacter('#'),
        })
    );
    assert_eq!(results[2].as_ref().unwrap().tok, Tok::Bang);
    assert_eq!(
        results[3].as_ref().unwrap().tok,
        Tok::Identifier("y".to_owned())
    );
}

#[test]
fn shebang_after_the_first_line_is_unexpected() {
    let results = lex("1\n#!x\n");
    assert_eq!(results.len(), 4);
    assert_eq!(
        results[0].as_ref().unwrap().tok,
        Tok::Number("1".to_owned())
    );
    assert_eq!(
        results[1],
        Err(Error {
            place: Place::new(2, 1),
            kind: ErrorKind::UnexpectedCharacter('#'),
        })
    );
    assert_eq!(results[2].as_ref().unwrap().tok, Tok::Bang);
    assert_eq!(
        results[3].as_ref().unwrap().tok,
        Tok::Identifier("x".to_owned())
    );
}

#[test]
fn hash_without_bang_is_unexpected_even_at_line_start() {
    let results = lex("# hello\n");
    assert_eq!(
        results[0],
        Err(Error {
            place: Place::new(1, 1),
            kind: ErrorKind::UnexpectedCharacter('#'),
        })
    );
    assert_eq!(
        results[1].as_ref().unwrap().tok,
        Tok::Identifier("hello".to_owned())
    );
}

#[test]
fn tab_moves_the_column_to_the_next_tab_stop() {
    let tokens = lex_tokens("\tone_tab");
    assert_eq!(tokens.len(), 1);
    assert_eq!(tokens[0].place, Place::new(1, 9));
    assert_eq!(tokens[0].tok, Tok::Identifier("one_tab".to_owned()));
}

#[test]
fn carriage_return_is_skipped_without_a_new_line() {
    let tokens = lex_tokens("a\r\nb");
    assert_eq!(tokens.len(), 2);
    assert_eq!(tokens[0].place, Place::new(1, 1));
    assert_eq!(tokens[1].place, Place::new(2, 1));
}

#[test]
fn error_after_multi_line_string_keeps_counting_lines() {
    let results = lex("\"a\nb\" @");
    assert_eq!(results.len(), 2);
    assert_eq!(
        results[0].as_ref().unwrap().tok,
        Tok::String("a\nb".to_owned())
    );
    assert_eq!(
        results[1],
        Err(Error {
            place: Place::new(2, 4),
            kind: ErrorKind::UnexpectedCharacter('@'),
        })
    );
}
