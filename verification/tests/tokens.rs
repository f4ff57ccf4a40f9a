//! Classification coverage: every keyword, every operator, brackets and
//! punctuation, and the maximal-munch rules for numbers.

use mbplox::lex::{lex, Tok, Token};
use mbplox::place::Place;

fn lex_tokens(s: &str) -> Vec<Token> {
    lex(s).into_iter().map(Result::unwrap).collect()
}

fn lex_toks(s: &str) -> Vec<Tok> {
    lex_tokens(s).into_iter().map(|t| t.tok).collect()
}

fn num(text: &str) -> Tok {
    Tok::Number(text.to_owned())
}

#[test]
fn every_keyword_is_recognized() {
    let src = "and class else false for fun if nil or print return super this true var while";
    assert_eq!(
        lex_toks(src),
        vec![
            Tok::And,
            Tok::Class,
            Tok::Else,
            Tok::False,
            Tok::For,
            Tok::Fun,
            Tok::If,
            Tok::Nil,
            Tok::Or,
            Tok::Print,
            Tok::Return,
            Tok::Super,
            Tok::This,
            Tok::True,
            Tok::Var,
            Tok::While,
        ]
    );
}

#[test]
fn keyword_prefix_is_an_identifier() {
    assert_eq!(
        lex_toks("classes And fortune nil0"),
        vec![
            Tok::Identifier("classes".to_owned()),
            Tok::Identifier("And".to_owned()),
            Tok::Identifier("fortune".to_owned()),
            Tok::Identifier("nil0".to_owned()),
        ]
    );
}

#[test]
fn one_and_two_character_operators() {
    assert_eq!(
        lex_toks("! != = == < <= > >="),
        vec![
            Tok::Bang,
            Tok::BangEqual,
            Tok::Equal,
            Tok::EqualEqual,
            Tok::Less,
            Tok::LessEqual,
            Tok::Greater,
            Tok::GreaterEqual,
        ]
    );
}

#[test]
fn operator_pairs_without_space_bind_eagerly() {
    // maximal munch: `===` is `==` then `=`
    assert_eq!(
        lex_toks("==="),
        vec![Tok::EqualEqual, Tok::Equal]
    );
}

#[test]
fn brackets_and_punctuation() {
    assert_eq!(
        lex_toks("(){};,."),
        vec![
            Tok::LeftParen,
            Tok::RightParen,
            Tok::LeftBrace,
            Tok::RightBrace,
            Tok::Semicolon,
            Tok::Comma,
            Tok::Dot,
        ]
    );
}

#[test]
fn digits_lex_to_one_number_at_column_one() {
    let tokens = lex_tokens("0007");
    assert_eq!(
        tokens,
        vec![Token {
            tok: num("0007"),
            place: Place::new(1, 1),
            lexeme: "0007".to_owned(),
        }]
    );
    match &tokens[0].tok {
        Tok::Number(text) => assert_eq!(text.parse::<f64>().unwrap(), 7.0),
        other => panic!("expected a number token, got {:?}", other),
    }
}

#[test]
fn trailing_dot_at_end_of_input_is_separate() {
    assert_eq!(lex_toks("5."), vec![num("5"), Tok::Dot]);
}

#[test]
fn dot_followed_by_letter_is_not_a_fraction() {
    assert_eq!(
        lex_toks("12.a"),
        vec![num("12"), Tok::Dot, Tok::Identifier("a".to_owned())]
    );
}

#[test]
fn second_dot_ends_the_number() {
    assert_eq!(
        lex_toks("3.14.15"),
        vec![num("3.14"), Tok::Dot, num("15")]
    );
}

#[test]
fn string_keeps_backslashes_literally() {
    let src = r#""a\nb""#;
    let tokens = lex_tokens(src);
    assert_eq!(
        tokens,
        vec![Token {
            tok: Tok::String(r"a\nb".to_owned()),
            place: Place::new(1, 1),
            lexeme: src.to_owned(),
        }]
    );
}

#[test]
fn string_may_contain_comment_markers() {
    assert_eq!(
        lex_toks(r#""// not a comment""#),
        vec![Tok::String("// not a comment".to_owned())]
    );
}

#[test]
fn empty_input_lexes_to_nothing() {
    assert_eq!(lex(""), vec![]);
}

#[test]
fn relexing_yields_the_identical_stream() {
    let src = "#! run\nvar x = 1.5; // init\nprint \"x\" != y\n@ {}\n\"open";
    let first = lex(src);
    let second = lex(src);
    assert_eq!(first, second);
    let third = lex(src);
    assert_eq!(first, third);
}
