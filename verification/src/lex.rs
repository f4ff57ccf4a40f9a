//! Lex text into tokens.
//!
//! This is the lower level of parsing: grammar-specific classification
//! rules driven over the character scanner.  The whole pass is described
//! by the spec function [`spec_lex`], which maps the source characters to
//! the exact sequence of tokens and lexical errors that [`lex`] returns.

use vstd::prelude::*;
use vstd::string::StrSliceExecFns;

use crate::place::{
    lemma_place_advance_seq_concat, lemma_place_advance_seq_push,
    lemma_place_advance_seq_singleton, place_advance, place_advance_seq, start_place, Place,
    PlaceView,
};
use crate::scan::{
    is_digit_char, is_word_start_char, lemma_run_len_is, lemma_run_len_props,
    lemma_until_len_props, run_len, until_len, CharTest, Scan,
};

verus! {

/// A specific type of lexical token, including the text of literals and
/// the name of identifiers.
///
/// A number token carries the exact source text of the numeric literal
/// (a run of digits, optionally followed by a dot and a further run of
/// digits); reading that text as a machine floating-point value is the
/// consumer's affair.
#[derive(Debug, Clone, PartialEq)]
pub enum Tok {
    Plus,
    Minus,
    Star,
    Slash,
    Comma,
    Dot,
    Semicolon,
    LeftParen,
    RightParen,
    LeftBrace,
    RightBrace,
    Bang,
    BangEqual,
    Equal,
    EqualEqual,
    Greater,
    GreaterEqual,
    Less,
    LessEqual,
    True,
    False,
    String(String),
    Number(String),
    Identifier(String),
    And,
    Class,
    Else,
    Fun,
    For,
    If,
    Nil,
    Or,
    Print,
    Return,
    Super,
    This,
    Var,
    While,
}

/// Ghost image of a [`Tok`], with literal text as character sequences.
pub enum TokView {
    Plus,
    Minus,
    Star,
    Slash,
    Comma,
    Dot,
    Semicolon,
    LeftParen,
    RightParen,
    LeftBrace,
    RightBrace,
    Bang,
    BangEqual,
    Equal,
    EqualEqual,
    Greater,
    GreaterEqual,
    Less,
    LessEqual,
    True,
    False,
    String(Seq<char>),
    Number(Seq<char>),
    Identifier(Seq<char>),
    And,
    Class,
    Else,
    Fun,
    For,
    If,
    Nil,
    Or,
    Print,
    Return,
    Super,
    This,
    Var,
    While,
}

impl View for Tok {
    type V = TokView;

    open spec fn view(&self) -> TokView {
        match self {
            Tok::Plus => TokView::Plus,
            Tok::Minus => TokView::Minus,
            Tok::Star => TokView::Star,
            Tok::Slash => TokView::Slash,
            Tok::Comma => TokView::Comma,
            Tok::Dot => TokView::Dot,
            Tok::Semicolon => TokView::Semicolon,
            Tok::LeftParen => TokView::LeftParen,
            Tok::RightParen => TokView::RightParen,
            Tok::LeftBrace => TokView::LeftBrace,
            Tok::RightBrace => TokView::RightBrace,
            Tok::Bang => TokView::Bang,
            Tok::BangEqual => TokView::BangEqual,
            Tok::Equal => TokView::Equal,
            Tok::EqualEqual => TokView::EqualEqual,
            Tok::Greater => TokView::Greater,
            Tok::GreaterEqual => TokView::GreaterEqual,
            Tok::Less => TokView::Less,
            Tok::LessEqual => TokView::LessEqual,
            Tok::True => TokView::True,
            Tok::False => TokView::False,
            Tok::String(s) => TokView::String(s@),
            Tok::Number(s) => TokView::Number(s@),
            Tok::Identifier(s) => TokView::Identifier(s@),
            Tok::And => TokView::And,
            Tok::Class => TokView::Class,
            Tok::Else => TokView::Else,
            Tok::Fun => TokView::Fun,
            Tok::For => TokView::For,
            Tok::If => TokView::If,
            Tok::Nil => TokView::Nil,
            Tok::Or => TokView::Or,
            Tok::Print => TokView::Print,
            Tok::Return => TokView::Return,
            Tok::Super => TokView::Super,
            Tok::This => TokView::This,
            Tok::Var => TokView::Var,
            Tok::While => TokView::While,
        }
    }
}

/// A lexical token: its kind, the place where it starts, and the literal
/// text of its lexeme.
#[derive(Debug, Clone, PartialEq)]
pub struct Token {
    pub tok: Tok,
    /// Place where this token starts.
    pub place: Place,
    /// Literal content of the lexeme.
    pub lexeme: String,
}

/// Ghost image of a [`Token`].
pub struct TokenView {
    pub tok: TokView,
    pub place: PlaceView,
    pub lexeme: Seq<char>,
}

impl View for Token {
    type V = TokenView;

    open spec fn view(&self) -> TokenView {
        TokenView { tok: self.tok@, place: self.place@, lexeme: self.lexeme@ }
    }
}

/// A specific kind of tokenization error.
#[derive(Debug, Clone, PartialEq)]
pub enum ErrorKind {
    /// A character that just can't occur in Lox source.
    UnexpectedCharacter(char),
    /// A double-quoted string was still open at the end of the file.
    UnterminatedString,
}

/// An error while tokenizing source.
#[derive(Debug, Clone, PartialEq)]
pub struct Error {
    /// Place in the source where the error occurred.
    pub place: Place,
    /// Type of lexer error.
    pub kind: ErrorKind,
}

/// Ghost image of an [`Error`].
pub struct ErrorView {
    pub place: PlaceView,
    pub kind: ErrorKind,
}

impl View for Error {
    type V = ErrorView;

    open spec fn view(&self) -> ErrorView {
        ErrorView { place: self.place@, kind: self.kind }
    }
}

/// Ghost image of one entry of the result stream.
pub open spec fn item_view(it: Result<Token, Error>) -> Result<TokenView, ErrorView> {
    match it {
        Ok(t) => Ok(t@),
        Err(e) => Err(e@),
    }
}

/// Ghost image of the result stream.
pub open spec fn items_view(s: Seq<Result<Token, Error>>) -> Seq<Result<TokenView, ErrorView>> {
    s.map_values(|it: Result<Token, Error>| item_view(it))
}

/// The whitespace characters, discarded between tokens.
pub open spec fn is_space_char(c: char) -> bool {
    c == ' ' || c == '\t' || c == '\r' || c == '\n'
}

/// The kinds written with exactly one character, keyed by that character.
pub open spec fn single_char_tok(c: char) -> Option<TokView> {
    if c == '+' {
        Some(TokView::Plus)
    } else if c == '*' {
        Some(TokView::Star)
    } else if c == '-' {
        Some(TokView::Minus)
    } else if c == '.' {
        Some(TokView::Dot)
    } else if c == '/' {
        Some(TokView::Slash)
    } else if c == ';' {
        Some(TokView::Semicolon)
    } else if c == ',' {
        Some(TokView::Comma)
    } else if c == '{' {
        Some(TokView::LeftBrace)
    } else if c == '}' {
        Some(TokView::RightBrace)
    } else if c == '(' {
        Some(TokView::LeftParen)
    } else if c == ')' {
        Some(TokView::RightParen)
    } else {
        None
    }
}

/// The characters that may open a one-or-two character operator whose
/// second character is `=`.
pub open spec fn is_pair_start(c: char) -> bool {
    c == '!' || c == '=' || c == '<' || c == '>'
}

/// The operator kind for `c`, with or without a trailing `=`.
pub open spec fn pair_tok(c: char, eq: bool) -> TokView {
    if c == '!' {
        if eq {
            TokView::BangEqual
        } else {
            TokView::Bang
        }
    } else if c == '=' {
        if eq {
            TokView::EqualEqual
        } else {
            TokView::Equal
        }
    } else if c == '<' {
        if eq {
            TokView::LessEqual
        } else {
            TokView::Less
        }
    } else {
        if eq {
            TokView::GreaterEqual
        } else {
            TokView::Greater
        }
    }
}

/// The kind of a scanned word: the matching keyword's kind when the word
/// is spelled exactly like a keyword, an identifier otherwise.
pub open spec fn keyword_or_identifier(w: Seq<char>) -> TokView {
    if w == "and"@ {
        TokView::And
    } else if w == "class"@ {
        TokView::Class
    } else if w == "else"@ {
        TokView::Else
    } else if w == "false"@ {
        TokView::False
    } else if w == "for"@ {
        TokView::For
    } else if w == "fun"@ {
        TokView::Fun
    } else if w == "if"@ {
        TokView::If
    } else if w == "nil"@ {
        TokView::Nil
    } else if w == "or"@ {
        TokView::Or
    } else if w == "print"@ {
        TokView::Print
    } else if w == "return"@ {
        TokView::Return
    } else if w == "super"@ {
        TokView::Super
    } else if w == "this"@ {
        TokView::This
    } else if w == "true"@ {
        TokView::True
    } else if w == "var"@ {
        TokView::Var
    } else if w == "while"@ {
        TokView::While
    } else {
        TokView::Identifier(w)
    }
}

/// How much of `s` a numeric literal starting at its first character
/// covers: a maximal run of digits, then a dot and a further maximal run
/// of digits, but only when the dot is immediately followed by a digit.
pub open spec fn number_len(s: Seq<char>) -> nat {
    let d = run_len(s, CharTest::Digit);
    if d + 1 < s.len() && s[d as int] == '.' && is_digit_char(s[d + 1 as int]) {
        (d + 1 + run_len(s.skip(d + 1 as int), CharTest::Digit)) as nat
    } else {
        d
    }
}

/// A numeric literal starting at a digit covers at least that digit and
/// never reaches past the end of the input.
pub proof fn lemma_number_len_bounds(s: Seq<char>)
    requires
        s.len() > 0,
        is_digit_char(s[0]),
    ensures
        1 <= number_len(s) <= s.len(),
{
    lemma_run_len_props(s, CharTest::Digit);
    let d = run_len(s, CharTest::Digit);
    if d + 1 < s.len() && s[d as int] == '.' && is_digit_char(s[d + 1 as int]) {
        lemma_run_len_props(s.skip(d + 1 as int), CharTest::Digit);
    }
}

/// The classification rules: the result stream of lexing the characters
/// `s` when the next character to be consumed sits at `p`.
///
/// Each step classifies one lexical unit by its first character and local
/// lookahead, drops whitespace, comments and a shebang line opening the
/// very first line, and otherwise emits one token or one error before
/// continuing behind the consumed text.  An unterminated string consumes
/// the rest of the input.
pub open spec fn spec_lex_from(s: Seq<char>, p: PlaceView) -> Seq<Result<TokenView, ErrorView>>
    decreases s.len(),
    via spec_lex_from_decreases
{
    if s.len() == 0 {
        Seq::empty()
    } else {
        let c = s[0];
        if is_space_char(c) {
            spec_lex_from(s.skip(1), place_advance(p, c))
        } else if c == '/' && 2 <= s.len() && s[1] == '/' {
            let k = 2 + until_len(s.skip(2), CharTest::Newline) as int;
            spec_lex_from(s.skip(k), place_advance_seq(p, s.take(k)))
        } else if c == '#' && p.line == 1 && p.column == 1 && 2 <= s.len() && s[1] == '!' {
            let k = 2 + until_len(s.skip(2), CharTest::Newline) as int;
            spec_lex_from(s.skip(k), place_advance_seq(p, s.take(k)))
        } else if is_digit_char(c) {
            let k = number_len(s) as int;
            seq![Ok(TokenView { tok: TokView::Number(s.take(k)), place: p, lexeme: s.take(k) })]
                + spec_lex_from(s.skip(k), place_advance_seq(p, s.take(k)))
        } else if c == '"' {
            let b = run_len(s.skip(1), CharTest::NotQuote) as int;
            if 1 + b < s.len() {
                seq![
                    Ok(
                        TokenView {
                            tok: TokView::String(s.subrange(1, 1 + b)),
                            place: p,
                            lexeme: s.take(b + 2),
                        },
                    ),
                ] + spec_lex_from(s.skip(b + 2), place_advance_seq(p, s.take(b + 2)))
            } else {
                seq![Err(ErrorView { place: p, kind: ErrorKind::UnterminatedString })]
            }
        } else if is_word_start_char(c) {
            let k = run_len(s, CharTest::WordChar) as int;
            seq![
                Ok(
                    TokenView {
                        tok: keyword_or_identifier(s.take(k)),
                        place: p,
                        lexeme: s.take(k),
                    },
                ),
            ] + spec_lex_from(s.skip(k), place_advance_seq(p, s.take(k)))
        } else if is_pair_start(c) {
            let eq = 2 <= s.len() && s[1] == '=';
            let k: int = if eq {
                2
            } else {
                1
            };
            seq![Ok(TokenView { tok: pair_tok(c, eq), place: p, lexeme: s.take(k) })]
                + spec_lex_from(s.skip(k), place_advance_seq(p, s.take(k)))
        } else if single_char_tok(c) is Some {
            seq![Ok(TokenView { tok: single_char_tok(c)->0, place: p, lexeme: s.take(1) })]
                + spec_lex_from(s.skip(1), place_advance(p, c))
        } else {
            seq![Err(ErrorView { place: p, kind: ErrorKind::UnexpectedCharacter(c) })]
                + spec_lex_from(s.skip(1), place_advance(p, c))
        }
    }
}

#[via_fn]
proof fn spec_lex_from_decreases(s: Seq<char>, p: PlaceView) {
    if s.len() > 0 {
        let c = s[0];
        if s.len() >= 2 {
            lemma_until_len_props(s.skip(2), CharTest::Newline);
        }
        if is_digit_char(c) {
            lemma_number_len_bounds(s);
        }
        lemma_run_len_props(s.skip(1), CharTest::NotQuote);
        if is_word_start_char(c) {
            lemma_run_len_props(s, CharTest::WordChar);
        }
    }
}

/// The result stream of lexing the source text `s` from the start of a
/// file.
pub open spec fn spec_lex(s: Seq<char>) -> Seq<Result<TokenView, ErrorView>> {
    spec_lex_from(s, start_place())
}

/// A source consisting solely of decimal digits lexes to exactly one
/// number token whose text is the whole source, starting at line 1,
/// column 1.
pub proof fn lemma_all_digits_lex_to_one_number(s: Seq<char>)
    requires
        s.len() > 0,
        forall|i: int| 0 <= i < s.len() ==> is_digit_char(#[trigger] s[i]),
    ensures
        spec_lex(s) == seq![
            Ok::<TokenView, ErrorView>(
                TokenView { tok: TokView::Number(s), place: start_place(), lexeme: s },
            ),
        ],
{
    let p = start_place();
    lemma_run_len_is(s, CharTest::Digit, s.len() as int);
    assert(number_len(s) == s.len());
    assert(s.take(s.len() as int) =~= s);
    assert(s.skip(s.len() as int) =~= Seq::<char>::empty());
    assert(spec_lex_from(Seq::<char>::empty(), place_advance_seq(p, s))
        =~= Seq::<Result<TokenView, ErrorView>>::empty());
    assert(spec_lex(s) =~= seq![
        Ok::<TokenView, ErrorView>(
            TokenView { tok: TokView::Number(s), place: p, lexeme: s },
        ),
    ]);
}

/// A line consisting only of a comment lexes to nothing: the comment is
/// consumed through the end of the line, which here is the end of the
/// input.
pub proof fn lemma_comment_line_lexes_to_nothing(s: Seq<char>)
    requires
        s.len() >= 2,
        s[0] == '/',
        s[1] == '/',
        forall|i: int| 0 <= i < s.len() ==> #[trigger] s[i] != '\n',
    ensures
        spec_lex(s) == Seq::<Result<TokenView, ErrorView>>::empty(),
{
    let p = start_place();
    let rest = s.skip(2);
    lemma_until_len_props(rest, CharTest::Newline);
    let u = until_len(rest, CharTest::Newline) as int;
    if u < rest.len() {
        assert(rest[u - 1] == s[u + 1]);
        assert(false);
    }
    assert(u == s.len() - 2);
    assert(s.skip(2 + u) =~= Seq::<char>::empty());
    assert(spec_lex_from(Seq::<char>::empty(), place_advance_seq(p, s.take(2 + u)))
        =~= Seq::<Result<TokenView, ErrorView>>::empty());
}

/// Lexing is a pure function of its input: any two result streams drawn
/// from the same source text are identical.
pub proof fn lemma_lex_deterministic(
    s: Seq<char>,
    r1: Seq<Result<TokenView, ErrorView>>,
    r2: Seq<Result<TokenView, ErrorView>>,
)
    requires
        r1 == spec_lex(s),
        r2 == spec_lex(s),
    ensures
        r1 == r2,
{
}

/// One step of the classification rules over a single-character token.
proof fn lemma_step_single(s: Seq<char>, p: PlaceView)
    requires
        s.len() > 0,
        single_char_tok(s[0]) is Some,
        !(s[0] == '/' && 2 <= s.len() && s[1] == '/'),
    ensures
        spec_lex_from(s, p) == seq![
            Ok(TokenView { tok: single_char_tok(s[0])->0, place: p, lexeme: s.take(1) }),
        ] + spec_lex_from(s.skip(1), place_advance(p, s[0])),
{
}

/// One step of the classification rules over a one-or-two character
/// operator.
proof fn lemma_step_pair(s: Seq<char>, p: PlaceView)
    requires
        s.len() > 0,
        is_pair_start(s[0]),
    ensures
        ({
            let eq = 2 <= s.len() && s[1] == '=';
            let k: int = if eq {
                2
            } else {
                1
            };
            spec_lex_from(s, p) == seq![
                Ok(TokenView { tok: pair_tok(s[0], eq), place: p, lexeme: s.take(k) }),
            ] + spec_lex_from(s.skip(k), place_advance_seq(p, s.take(k)))
        }),
{
}

/// One step of the classification rules over an unexpected character.
///
/// The character is passed separately so that the constructed error
/// value is known to be well-formed.
proof fn lemma_step_error(s: Seq<char>, p: PlaceView, c: char)
    requires
        s.len() > 0,
        c == s[0],
        !is_space_char(c),
        !(c == '/' && 2 <= s.len() && s[1] == '/'),
        !(c == '#' && p.line == 1 && p.column == 1 && 2 <= s.len() && s[1] == '!'),
        !is_digit_char(c),
        c != '"',
        !is_word_start_char(c),
        !is_pair_start(c),
        single_char_tok(c) is None,
    ensures
        spec_lex_from(s, p) == seq![
            Err(ErrorView { place: p, kind: ErrorKind::UnexpectedCharacter(c) }),
        ] + spec_lex_from(s.skip(1), place_advance(p, c)),
{
}

/// Appending one entry to the stream appends its image to the stream's
/// image.
proof fn lemma_items_view_push(s: Seq<Result<Token, Error>>, x: Result<Token, Error>)
    ensures
        items_view(s.push(x)) == items_view(s).push(item_view(x)),
{
    assert(items_view(s.push(x)) =~= items_view(s).push(item_view(x)));
}

/// Decide whether two string slices hold the same characters.
fn str_eq(a: &str, b: &str) -> (r: bool)
    ensures
        r == (a@ == b@),
{
    let n = a.unicode_len();
    if n != b.unicode_len() {
        return false;
    }
    let mut i: usize = 0;
    while i < n
        invariant
            i <= n,
            n == a@.len(),
            n == b@.len(),
            forall|j: int| 0 <= j < i ==> a@[j] == b@[j],
        decreases n - i,
    {
        if a.get_char(i) != b.get_char(i) {
            return false;
        }
        i = i + 1;
    }
    proof {
        assert(a@ =~= b@);
    }
    true
}

/// Build a token of the given kind from the scanner's current token and
/// append it to the result stream.
fn push_token(result: &mut Vec<Result<Token, Error>>, scan: &Scan, tok: Tok)
    ensures
        items_view(final(result)@) == items_view(old(result)@).push(
            Ok(TokenView { tok: tok@, place: scan.start_pos(), lexeme: scan.token_text() }),
        ),
{
    let ghost tv = tok@;
    let t = Token { tok, lexeme: scan.current_token().to_owned(), place: scan.token_start() };
    let ghost before = result@;
    result.push(Ok(t));
    proof {
        lemma_items_view_push(before, Ok(t));
        assert(t@ == (TokenView { tok: tv, place: scan.start_pos(), lexeme: scan.token_text() }));
    }
}

/// Scan the rest of a numeric literal whose first digit has just been
/// consumed: the remaining maximal run of digits, and a fractional part
/// only when a dot is immediately followed by a digit.
fn number(scan: &mut Scan) -> (t: Tok)
    requires
        old(scan).wf(),
        old(scan).token_text().len() == 1,
        is_digit_char(old(scan).token_text()[0]),
    ensures
        final(scan).wf(),
        ({
            let full = old(scan).token_text() + old(scan).remaining();
            let k = number_len(full) as int;
            &&& final(scan).token_text() == full.take(k)
            &&& final(scan).remaining() == full.skip(k)
            &&& final(scan).pos() == place_advance_seq(
                old(scan).pos(),
                old(scan).remaining().take(k - 1),
            )
            &&& final(scan).start_pos() == old(scan).start_pos()
            &&& t@ == TokView::Number(full.take(k))
        }),
{
    let ghost full = old(scan).token_text() + old(scan).remaining();
    let ghost rem = old(scan).remaining();
    let ghost p1 = old(scan).pos();
    proof {
        assert(full[0] == old(scan).token_text()[0]);
        assert(full.skip(1) =~= rem);
        lemma_run_len_props(full, CharTest::Digit);
        lemma_run_len_props(rem, CharTest::Digit);
    }
    let ghost d = run_len(full, CharTest::Digit) as int;
    scan.take_while(CharTest::Digit);
    proof {
        assert(run_len(full, CharTest::Digit) == 1 + run_len(rem, CharTest::Digit));
        assert(scan.remaining() =~= full.skip(d));
        assert(scan.token_text() =~= full.take(d));
    }
    let has_fraction: bool;
    match scan.peek2() {
        Some((dot, frac)) => {
            has_fraction = dot == '.' && CharTest::Digit.holds(frac);
        },
        None => {
            has_fraction = false;
        },
    }
    proof {
        assert(scan.remaining().len() >= 2 <==> d + 2 <= full.len());
        if scan.remaining().len() >= 2 {
            assert(scan.remaining()[0] == full[d]);
            assert(scan.remaining()[1] == full[d + 1]);
        }
        assert(has_fraction == (d + 1 < full.len() && full[d] == '.' && is_digit_char(
            full[d + 1],
        )));
    }
    if has_fraction {
        let ghost mid = *scan;
        scan.take_exactly('.');
        proof {
            assert(scan.remaining() =~= full.skip(d + 1));
            assert(scan.token_text() =~= full.take(d + 1));
        }
        let ghost rest = full.skip(d + 1);
        let ghost r2 = run_len(rest, CharTest::Digit) as int;
        let ghost k = number_len(full) as int;
        scan.take_while(CharTest::Digit);
        proof {
            lemma_run_len_props(rest, CharTest::Digit);
            assert(k == d + 1 + r2);
            assert(scan.remaining() =~= full.skip(k));
            assert(scan.token_text() =~= full.take(k));
            // the position moved over the token's characters after the first
            assert(rem.take(k - 1) =~= (rem.take(d - 1) + seq!['.']) + rest.take(r2));
            lemma_place_advance_seq_concat(p1, rem.take(d - 1) + seq!['.'], rest.take(r2));
            assert(rem.take(d - 1).push('.') =~= rem.take(d - 1) + seq!['.']);
            lemma_place_advance_seq_push(p1, rem.take(d - 1), '.');
            assert(rem.take(d - 1) =~= full.skip(1).take(d - 1));
        }
    } else {
        proof {
            let k = number_len(full) as int;
            assert(k == d);
            assert(rem.take(k - 1) =~= full.skip(1).take(d - 1));
        }
    }
    Tok::Number(scan.current_token().to_owned())
}

/// Scan the rest of a word whose first character has just been consumed:
/// the remaining maximal run of word characters, then the keyword lookup.
fn word(scan: &mut Scan) -> (t: Tok)
    requires
        old(scan).wf(),
        old(scan).token_text().len() == 1,
        is_word_start_char(old(scan).token_text()[0]),
    ensures
        final(scan).wf(),
        ({
            let full = old(scan).token_text() + old(scan).remaining();
            let k = run_len(full, CharTest::WordChar) as int;
            &&& final(scan).token_text() == full.take(k)
            &&& final(scan).remaining() == full.skip(k)
            &&& final(scan).pos() == place_advance_seq(
                old(scan).pos(),
                old(scan).remaining().take(k - 1),
            )
            &&& final(scan).start_pos() == old(scan).start_pos()
            &&& t@ == keyword_or_identifier(full.take(k))
        }),
{
    let ghost full = old(scan).token_text() + old(scan).remaining();
    let ghost rem = old(scan).remaining();
    proof {
        assert(full[0] == old(scan).token_text()[0]);
        assert(full.skip(1) =~= rem);
    }
    let ghost k = run_len(full, CharTest::WordChar) as int;
    scan.take_while(CharTest::WordChar);
    proof {
        lemma_run_len_props(rem, CharTest::WordChar);
        assert(run_len(full, CharTest::WordChar) == 1 + run_len(rem, CharTest::WordChar));
        assert(scan.remaining() =~= full.skip(k));
        assert(scan.token_text() =~= full.take(k));
        assert(rem.take(k - 1) =~= full.skip(1).take(k - 1));
    }
    let w = scan.current_token();
    if str_eq(w, "and") {
        Tok::And
    } else if str_eq(w, "class") {
        Tok::Class
    } else if str_eq(w, "else") {
        Tok::Else
    } else if str_eq(w, "false") {
        Tok::False
    } else if str_eq(w, "for") {
        Tok::For
    } else if str_eq(w, "fun") {
        Tok::Fun
    } else if str_eq(w, "if") {
        Tok::If
    } else if str_eq(w, "nil") {
        Tok::Nil
    } else if str_eq(w, "or") {
        Tok::Or
    } else if str_eq(w, "print") {
        Tok::Print
    } else if str_eq(w, "return") {
        Tok::Return
    } else if str_eq(w, "super") {
        Tok::Super
    } else if str_eq(w, "this") {
        Tok::This
    } else if str_eq(w, "true") {
        Tok::True
    } else if str_eq(w, "var") {
        Tok::Var
    } else if str_eq(w, "while") {
        Tok::While
    } else {
        Tok::Identifier(w.to_owned())
    }
}

/// Scan the rest of a string literal whose opening quote has just been
/// consumed: everything up to the closing quote becomes the token's
/// content, and a literal still open at the end of the input is an
/// unterminated-string error at the opening quote's place.
fn string(scan: &mut Scan) -> (r: Result<Token, Error>)
    requires
        old(scan).wf(),
        old(scan).token_text() == seq!['"'],
    ensures
        final(scan).wf(),
        final(scan).start_pos() == old(scan).start_pos(),
        ({
            let rem = old(scan).remaining();
            let b = run_len(rem, CharTest::NotQuote) as int;
            if b < rem.len() {
                &&& (r matches Ok(t) && t@ == (TokenView {
                    tok: TokView::String(rem.take(b)),
                    place: old(scan).start_pos(),
                    lexeme: old(scan).token_text() + rem.take(b + 1),
                }))
                &&& final(scan).remaining() == rem.skip(b + 1)
                &&& final(scan).token_text() == old(scan).token_text() + rem.take(b + 1)
                &&& final(scan).pos() == place_advance_seq(old(scan).pos(), rem.take(b + 1))
            } else {
                &&& (r matches Err(e) && e@ == (ErrorView {
                    place: old(scan).start_pos(),
                    kind: ErrorKind::UnterminatedString,
                }))
                &&& final(scan).remaining() == Seq::<char>::empty()
                &&& final(scan).token_text() == old(scan).token_text() + rem
                &&& final(scan).pos() == place_advance_seq(old(scan).pos(), rem)
            }
        }),
{
    let ghost rem = old(scan).remaining();
    let ghost b = run_len(rem, CharTest::NotQuote) as int;
    proof {
        lemma_run_len_props(rem, CharTest::NotQuote);
    }
    scan.take_while(CharTest::NotQuote);
    if scan.take_exactly('"') {
        proof {
            assert(rem.skip(b)[0] == rem[b]);
            assert(scan.token_text() =~= seq!['"'] + rem.take(b + 1));
            assert(rem.take(b + 1) =~= rem.take(b).push(rem[b]));
            lemma_place_advance_seq_push(old(scan).pos(), rem.take(b), '"');
            assert(scan.remaining() =~= rem.skip(b + 1));
        }
        let lexeme = scan.current_token().to_owned();
        let n = lexeme.as_str().unicode_len();
        proof {
            assert(n == b + 2);
        }
        let content = lexeme.as_str().substring_char(1, n - 1).to_owned();
        proof {
            assert(content@ =~= rem.take(b));
        }
        Ok(Token { tok: Tok::String(content), place: scan.token_start(), lexeme })
    } else {
        proof {
            assert(b == rem.len());
            assert(rem.take(b) =~= rem);
            assert(scan.remaining() =~= Seq::<char>::empty());
        }
        Err(Error { place: scan.token_start(), kind: ErrorKind::UnterminatedString })
    }
}

/// Build an error at the current token's start and append it to the
/// result stream.
fn push_error(result: &mut Vec<Result<Token, Error>>, scan: &Scan, kind: ErrorKind)
    ensures
        items_view(final(result)@) == items_view(old(result)@).push(
            Err(ErrorView { place: scan.start_pos(), kind }),
        ),
{
    let ghost kv = kind;
    let e = Error { place: scan.token_start(), kind };
    let ghost before = result@;
    result.push(Err(e));
    proof {
        lemma_items_view_push(before, Err(e));
        assert(e@ == (ErrorView { place: scan.start_pos(), kind: kv }));
    }
}

/// Decide whether a character may begin a word.
fn is_word_start(c: char) -> (r: bool)
    ensures
        r == is_word_start_char(c),
{
    ('a' as u32 <= c as u32 && c as u32 <= 'z' as u32) || ('A' as u32 <= c as u32 && c as u32
        <= 'Z' as u32) || c == '_'
}


/// The scanner state just after the driver consumed the first character
/// `c` of a lexical unit: the current token holds exactly `c`, and the
/// token's start sits one advance behind the cursor.
spec fn at_unit_start(scan: Scan, c: char) -> bool {
    &&& scan.wf()
    &&& scan.token_text() == seq![c]
    &&& scan.pos() == place_advance(scan.start_pos(), c)
}

/// What every handler of one lexical unit establishes: the stream built
/// so far plus the rules applied to what is left equals the stream built
/// before the unit plus the rules applied from the unit's start.
spec fn unit_step(
    result0: Seq<Result<Token, Error>>,
    result1: Seq<Result<Token, Error>>,
    scan1: Scan,
    s: Seq<char>,
    p: PlaceView,
) -> bool {
    items_view(result1) + spec_lex_from(scan1.remaining(), scan1.pos()) == items_view(result0)
        + spec_lex_from(s, p)
}

/// Emit the token of a unit made of the single character `c`.
fn unit_single(scan: &Scan, result: &mut Vec<Result<Token, Error>>, c: char, tok: Tok)
    requires
        at_unit_start(*scan, c),
        single_char_tok(c) is Some,
        tok@ == single_char_tok(c)->0,
        c == '/' ==> !(scan.remaining().len() > 0 && scan.remaining()[0] == '/'),
    ensures
        unit_step(
            old(result)@,
            final(result)@,
            *scan,
            seq![c] + scan.remaining(),
            scan.start_pos(),
        ),
{
    push_token(result, scan, tok);
    proof {
        let s = seq![c] + scan.remaining();
        assert(s[0] == c);
        assert(s.skip(1) =~= scan.remaining());
        assert(s.take(1) =~= seq![c]);
        if c == '/' && 2 <= s.len() {
            assert(s[1] == scan.remaining()[0]);
        }
        lemma_step_single(s, scan.start_pos());
        assert(items_view(result@) + spec_lex_from(scan.remaining(), scan.pos())
            =~= items_view(old(result)@) + spec_lex_from(s, scan.start_pos()));
    }
}

/// Emit the token of a unit that opens with `!`, `=`, `<` or `>` and may
/// close with a trailing `=`.
fn unit_pair(scan: &mut Scan, result: &mut Vec<Result<Token, Error>>, c: char)
    requires
        at_unit_start(*old(scan), c),
        is_pair_start(c),
    ensures
        final(scan).wf(),
        final(scan).remaining().len() <= old(scan).remaining().len(),
        unit_step(
            old(result)@,
            final(result)@,
            *final(scan),
            seq![c] + old(scan).remaining(),
            old(scan).start_pos(),
        ),
{
    let ghost pre = *old(scan);
    let ghost s = seq![c] + pre.remaining();
    let ghost p0 = pre.start_pos();
    let with_eq = scan.take_exactly('=');
    let tok = if c == '!' {
        if with_eq {
            Tok::BangEqual
        } else {
            Tok::Bang
        }
    } else if c == '=' {
        if with_eq {
            Tok::EqualEqual
        } else {
            Tok::Equal
        }
    } else if c == '<' {
        if with_eq {
            Tok::LessEqual
        } else {
            Tok::Less
        }
    } else {
        if with_eq {
            Tok::GreaterEqual
        } else {
            Tok::Greater
        }
    };
    push_token(result, scan, tok);
    proof {
        assert(s[0] == c);
        assert(s.skip(1) =~= pre.remaining());
        if 2 <= s.len() {
            assert(s[1] == pre.remaining()[0]);
        }
        assert(with_eq == (2 <= s.len() && s[1] == '='));
        lemma_step_pair(s, p0);
        assert(tok@ == pair_tok(c, with_eq));
        if with_eq {
            assert(scan.token_text() =~= s.take(2));
            assert(seq![c].push('=') =~= s.take(2));
            lemma_place_advance_seq_push(p0, seq![c], '=');
            lemma_place_advance_seq_singleton(p0, c);
            assert(scan.remaining() =~= s.skip(2));
            assert(scan.pos() == place_advance_seq(p0, s.take(2)));
        } else {
            assert(scan.token_text() =~= s.take(1));
            assert(seq![c] =~= s.take(1));
            lemma_place_advance_seq_singleton(p0, c);
            assert(scan.pos() == place_advance_seq(p0, s.take(1)));
            assert(scan.remaining() =~= s.skip(1));
        }
        assert(items_view(result@) + spec_lex_from(scan.remaining(), scan.pos())
            =~= items_view(old(result)@) + spec_lex_from(s, p0));
    }
}

/// Emit the token of a numeric literal unit.
fn unit_number(scan: &mut Scan, result: &mut Vec<Result<Token, Error>>, c: char)
    requires
        at_unit_start(*old(scan), c),
        is_digit_char(c),
    ensures
        final(scan).wf(),
        final(scan).remaining().len() <= old(scan).remaining().len(),
        unit_step(
            old(result)@,
            final(result)@,
            *final(scan),
            seq![c] + old(scan).remaining(),
            old(scan).start_pos(),
        ),
{
    let ghost pre = *old(scan);
    let ghost s = seq![c] + pre.remaining();
    let ghost p0 = pre.start_pos();
    let tok = number(scan);
    push_token(result, scan, tok);
    proof {
        let k = number_len(s) as int;
        assert(s[0] == c);
        assert(pre.token_text() + pre.remaining() =~= s);
        lemma_number_len_bounds(s);
        assert(scan.token_text() == s.take(k));
        assert(scan.remaining() == s.skip(k));
        assert(tok@ == TokView::Number(s.take(k)));
        assert(s.take(k) =~= seq![c] + s.skip(1).take(k - 1));
        lemma_place_advance_seq_concat(p0, seq![c], s.skip(1).take(k - 1));
        lemma_place_advance_seq_singleton(p0, c);
        assert(pre.remaining() =~= s.skip(1));
        assert(scan.pos() == place_advance_seq(p0, s.take(k)));
        assert(items_view(result@) + spec_lex_from(scan.remaining(), scan.pos())
            =~= items_view(old(result)@) + spec_lex_from(s, p0));
    }
}

/// Emit the token of a word unit: a keyword or an identifier.
fn unit_word(scan: &mut Scan, result: &mut Vec<Result<Token, Error>>, c: char)
    requires
        at_unit_start(*old(scan), c),
        is_word_start_char(c),
    ensures
        final(scan).wf(),
        final(scan).remaining().len() <= old(scan).remaining().len(),
        unit_step(
            old(result)@,
            final(result)@,
            *final(scan),
            seq![c] + old(scan).remaining(),
            old(scan).start_pos(),
        ),
{
    let ghost pre = *old(scan);
    let ghost s = seq![c] + pre.remaining();
    let ghost p0 = pre.start_pos();
    let tok = word(scan);
    push_token(result, scan, tok);
    proof {
        let k = run_len(s, CharTest::WordChar) as int;
        assert(s[0] == c);
        assert(pre.token_text() + pre.remaining() =~= s);
        lemma_run_len_props(s, CharTest::WordChar);
        assert(k >= 1);
        assert(scan.token_text() == s.take(k));
        assert(scan.remaining() == s.skip(k));
        assert(tok@ == keyword_or_identifier(s.take(k)));
        assert(s.take(k) =~= seq![c] + s.skip(1).take(k - 1));
        lemma_place_advance_seq_concat(p0, seq![c], s.skip(1).take(k - 1));
        lemma_place_advance_seq_singleton(p0, c);
        assert(pre.remaining() =~= s.skip(1));
        assert(scan.pos() == place_advance_seq(p0, s.take(k)));
        assert(items_view(result@) + spec_lex_from(scan.remaining(), scan.pos())
            =~= items_view(old(result)@) + spec_lex_from(s, p0));
    }
}

/// Emit the token or error of a string literal unit.
fn unit_string(scan: &mut Scan, result: &mut Vec<Result<Token, Error>>)
    requires
        at_unit_start(*old(scan), '"'),
    ensures
        final(scan).wf(),
        final(scan).remaining().len() <= old(scan).remaining().len(),
        unit_step(
            old(result)@,
            final(result)@,
            *final(scan),
            seq!['"'] + old(scan).remaining(),
            old(scan).start_pos(),
        ),
{
    let ghost pre = *old(scan);
    let ghost s = seq!['"'] + pre.remaining();
    let ghost p0 = pre.start_pos();
    let ghost res0 = result@;
    let item = string(scan);
    result.push(item);
    proof {
        lemma_items_view_push(res0, item);
        let rem1 = pre.remaining();
        let b = run_len(rem1, CharTest::NotQuote) as int;
        lemma_run_len_props(rem1, CharTest::NotQuote);
        assert(s[0] == '"');
        assert(s.skip(1) =~= rem1);
        assert(run_len(s.skip(1), CharTest::NotQuote) == b);
        if b < rem1.len() {
            assert(rem1.take(b) =~= s.subrange(1, 1 + b));
            assert(seq!['"'] + rem1.take(b + 1) =~= s.take(b + 2));
            assert(scan.remaining() =~= s.skip(b + 2));
            lemma_place_advance_seq_concat(p0, seq!['"'], rem1.take(b + 1));
            lemma_place_advance_seq_singleton(p0, '"');
            assert(scan.pos() == place_advance_seq(p0, s.take(b + 2)));
            assert(items_view(result@) + spec_lex_from(scan.remaining(), scan.pos())
                =~= items_view(res0) + spec_lex_from(s, p0));
        } else {
            assert(spec_lex_from(s, p0) == seq![
                Err::<TokenView, ErrorView>(
                    ErrorView { place: p0, kind: ErrorKind::UnterminatedString },
                ),
            ]);
            assert(spec_lex_from(scan.remaining(), scan.pos())
                =~= Seq::<Result<TokenView, ErrorView>>::empty());
            assert(items_view(result@) + spec_lex_from(scan.remaining(), scan.pos())
                =~= items_view(res0) + spec_lex_from(s, p0));
        }
    }
}

/// Handle a unit opening with a slash: a comment that runs to the end of
/// the line, or a lone slash token.
fn unit_slash(scan: &mut Scan, result: &mut Vec<Result<Token, Error>>)
    requires
        at_unit_start(*old(scan), '/'),
    ensures
        final(scan).wf(),
        final(scan).remaining().len() <= old(scan).remaining().len(),
        unit_step(
            old(result)@,
            final(result)@,
            *final(scan),
            seq!['/'] + old(scan).remaining(),
            old(scan).start_pos(),
        ),
{
    let ghost pre = *old(scan);
    let ghost s = seq!['/'] + pre.remaining();
    let ghost p0 = pre.start_pos();
    if scan.take_exactly('/') {
        scan.take_until(CharTest::Newline);
        proof {
            assert(s[0] == '/');
            assert(s.skip(1) =~= pre.remaining());
            assert(s[1] == pre.remaining()[0]);
            let u = until_len(s.skip(2), CharTest::Newline) as int;
            let k = 2 + u;
            lemma_until_len_props(s.skip(2), CharTest::Newline);
            assert(pre.remaining().skip(1) =~= s.skip(2));
            assert(scan.remaining() =~= s.skip(k));
            assert(s.take(k) =~= s.take(2) + s.skip(2).take(u));
            lemma_place_advance_seq_concat(p0, s.take(2), s.skip(2).take(u));
            assert(seq!['/'].push('/') =~= s.take(2));
            lemma_place_advance_seq_push(p0, seq!['/'], '/');
            lemma_place_advance_seq_singleton(p0, '/');
            assert(scan.pos() == place_advance_seq(p0, s.take(k)));
            assert(spec_lex_from(s, p0) == spec_lex_from(scan.remaining(), scan.pos()));
        }
    } else {
        let ghost mid = *scan;
        unit_single(scan, result, '/', Tok::Slash);
        proof {
            assert(seq!['/'] + mid.remaining() =~= s);
        }
    }
}

/// Handle a unit opening with a hash: a shebang line when the hash is
/// the very first character of the very first line and a bang follows,
/// an unexpected character otherwise.
fn unit_hash(scan: &mut Scan, result: &mut Vec<Result<Token, Error>>)
    requires
        at_unit_start(*old(scan), '#'),
    ensures
        final(scan).wf(),
        final(scan).remaining().len() <= old(scan).remaining().len(),
        unit_step(
            old(result)@,
            final(result)@,
            *final(scan),
            seq!['#'] + old(scan).remaining(),
            old(scan).start_pos(),
        ),
{
    let ghost pre = *old(scan);
    let ghost s = seq!['#'] + pre.remaining();
    let ghost p0 = pre.start_pos();
    let at_file_start = scan.token_start().line == 1 && scan.next_column() == 2;
    if at_file_start && scan.take_exactly('!') {
        scan.take_until(CharTest::Newline);
        proof {
            assert(s[0] == '#');
            assert(s.skip(1) =~= pre.remaining());
            assert(s[1] == pre.remaining()[0]);
            assert(p0.line == 1);
            assert(p0.column == 1);
            let u = until_len(s.skip(2), CharTest::Newline) as int;
            let k = 2 + u;
            lemma_until_len_props(s.skip(2), CharTest::Newline);
            assert(pre.remaining().skip(1) =~= s.skip(2));
            assert(scan.remaining() =~= s.skip(k));
            assert(s.take(k) =~= s.take(2) + s.skip(2).take(u));
            lemma_place_advance_seq_concat(p0, s.take(2), s.skip(2).take(u));
            assert(seq!['#'].push('!') =~= s.take(2));
            lemma_place_advance_seq_push(p0, seq!['#'], '!');
            lemma_place_advance_seq_singleton(p0, '#');
            assert(scan.pos() == place_advance_seq(p0, s.take(k)));
            assert(spec_lex_from(s, p0) == spec_lex_from(scan.remaining(), scan.pos()));
        }
    } else {
        push_error(result, scan, ErrorKind::UnexpectedCharacter('#'));
        proof {
            assert(s[0] == '#');
            assert(s.skip(1) =~= pre.remaining());
            if 2 <= s.len() {
                assert(s[1] == pre.remaining()[0]);
            }
            assert(!(p0.line == 1 && p0.column == 1 && 2 <= s.len() && s[1] == '!'));
            lemma_step_error(s, p0, '#');
            assert(items_view(result@) + spec_lex_from(scan.remaining(), scan.pos())
                =~= items_view(old(result)@) + spec_lex_from(s, p0));
        }
    }
}

/// Emit the error for a unit made of a character no rule recognizes.
fn unit_error(scan: &Scan, result: &mut Vec<Result<Token, Error>>, c: char)
    requires
        at_unit_start(*scan, c),
        !is_space_char(c),
        !is_digit_char(c),
        c != '"',
        c != '#',
        !is_word_start_char(c),
        !is_pair_start(c),
        single_char_tok(c) is None,
    ensures
        unit_step(
            old(result)@,
            final(result)@,
            *scan,
            seq![c] + scan.remaining(),
            scan.start_pos(),
        ),
{
    push_error(result, scan, ErrorKind::UnexpectedCharacter(c));
    proof {
        let s = seq![c] + scan.remaining();
        assert(s[0] == c);
        assert(s.skip(1) =~= scan.remaining());
        lemma_step_error(s, scan.start_pos(), c);
        assert(items_view(result@) + spec_lex_from(scan.remaining(), scan.pos())
            =~= items_view(old(result)@) + spec_lex_from(s, scan.start_pos()));
    }
}

/// Classify one lexical unit: consume at least one character, and emit
/// whatever the classification rules emit for it.
fn lex_unit(scan: &mut Scan, result: &mut Vec<Result<Token, Error>>)
    requires
        old(scan).wf(),
        old(scan).remaining().len() > 0,
    ensures
        final(scan).wf(),
        final(scan).remaining().len() < old(scan).remaining().len(),
        unit_step(
            old(result)@,
            final(result)@,
            *final(scan),
            old(scan).remaining(),
            old(scan).pos(),
        ),
{
    let ghost rem0 = old(scan).remaining();
    let ghost p0 = old(scan).pos();
    scan.start_token();
    let c = scan.take().unwrap();
    proof {
        assert(rem0[0] == c);
        assert(Seq::<char>::empty().push(c) =~= seq![c]);
        assert(seq![c] + scan.remaining() =~= rem0);
    }
    if c == '\n' || c == ' ' || c == '\t' || c == '\r' {
        proof {
            assert(spec_lex_from(rem0, p0) == spec_lex_from(
                rem0.skip(1),
                place_advance(p0, c),
            ));
        }
    } else if c == '/' {
        unit_slash(scan, result);
    } else if c == '+' {
        unit_single(scan, result, c, Tok::Plus);
    } else if c == '*' {
        unit_single(scan, result, c, Tok::Star);
    } else if c == '-' {
        unit_single(scan, result, c, Tok::Minus);
    } else if c == '.' {
        unit_single(scan, result, c, Tok::Dot);
    } else if c == ';' {
        unit_single(scan, result, c, Tok::Semicolon);
    } else if c == ',' {
        unit_single(scan, result, c, Tok::Comma);
    } else if c == '{' {
        unit_single(scan, result, c, Tok::LeftBrace);
    } else if c == '}' {
        unit_single(scan, result, c, Tok::RightBrace);
    } else if c == '(' {
        unit_single(scan, result, c, Tok::LeftParen);
    } else if c == ')' {
        unit_single(scan, result, c, Tok::RightParen);
    } else if c == '!' || c == '=' || c == '<' || c == '>' {
        unit_pair(scan, result, c);
    } else if CharTest::Digit.holds(c) {
        unit_number(scan, result, c);
    } else if c == '"' {
        unit_string(scan, result);
    } else if is_word_start(c) {
        unit_word(scan, result, c);
    } else if c == '#' {
        unit_hash(scan, result);
    } else {
        unit_error(scan, result, c);
    }
}

/// Lex some Lox source into a vec of tokens and tokenization errors.
///
/// The result is exactly the stream that the classification rules of
/// [`spec_lex`] give for the source text: tokens and errors interleaved
/// in strict source order, with whitespace, comments and a leading
/// shebang line discarded, and with scanning always resuming after an
/// error.
pub fn lex(source: &str) -> (r: Vec<Result<Token, Error>>)
    requires
        8 * source@.len() + 1 <= usize::MAX,
    ensures
        items_view(r@) == spec_lex(source@),
{
    let mut scan = Scan::new(source);
    let mut result: Vec<Result<Token, Error>> = Vec::new();
    proof {
        assert(items_view(result@) =~= Seq::<Result<TokenView, ErrorView>>::empty());
        assert(items_view(result@) + spec_lex_from(source@, start_place()) =~= spec_lex(
            source@,
        ));
    }
    while !scan.is_empty()
        invariant
            scan.wf(),
            items_view(result@) + spec_lex_from(scan.remaining(), scan.pos()) == spec_lex(
                source@,
            ),
        decreases scan.remaining().len(),
    {
        lex_unit(&mut scan, &mut result);
    }
    proof {
        assert(spec_lex_from(scan.remaining(), scan.pos())
            =~= Seq::<Result<TokenView, ErrorView>>::empty());
        assert(items_view(result@) =~= items_view(result@) + spec_lex_from(
            scan.remaining(),
            scan.pos(),
        ));
    }
    result
}

} // verus!
