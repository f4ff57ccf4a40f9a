//! Scan text as characters, with peek-ahead, tracking line numbers,
//! and remembering the characters in each token.
//!
//! This layer knows nothing about the syntax of Lox, only how to
//! generically scan a text file.

use vstd::prelude::*;
use vstd::string::StrSliceExecFns;
use vstd::string::StringExecFns;

use crate::place::{
    place_advance, place_advance_seq, place_ok, start_place, lemma_place_advance_seq_bounds,
    lemma_place_advance_seq_push, lemma_place_advance_seq_concat, Place, PlaceView,
};

verus! {

/// The character predicates that the scanner's callers select from when
/// consuming runs of characters.
#[derive(Debug, Clone, Copy)]
pub enum CharTest {
    /// A line feed.
    Newline,
    /// An ASCII decimal digit.
    Digit,
    /// An ASCII letter, digit or underscore.
    WordChar,
    /// Anything but a double quote.
    NotQuote,
}

/// An ASCII decimal digit.
pub open spec fn is_digit_char(c: char) -> bool {
    '0' as u32 <= c as u32 && c as u32 <= '9' as u32
}

/// An ASCII letter or underscore: the characters a word may begin with.
pub open spec fn is_word_start_char(c: char) -> bool {
    ('a' as u32 <= c as u32 && c as u32 <= 'z' as u32) || ('A' as u32 <= c as u32 && c as u32
        <= 'Z' as u32) || c == '_'
}

/// An ASCII letter, digit or underscore: the characters a word may contain.
pub open spec fn is_word_char(c: char) -> bool {
    is_word_start_char(c) || is_digit_char(c)
}

impl CharTest {
    /// Which characters the predicate holds of.
    pub open spec fn spec_holds(self, c: char) -> bool {
        match self {
            CharTest::Newline => c == '\n',
            CharTest::Digit => is_digit_char(c),
            CharTest::WordChar => is_word_char(c),
            CharTest::NotQuote => c != '"',
        }
    }

    /// Decide the predicate on one character.
    pub fn holds(self, c: char) -> (r: bool)
        ensures
            r == self.spec_holds(c),
    {
        match self {
            CharTest::Newline => c == '\n',
            CharTest::Digit => '0' as u32 <= c as u32 && c as u32 <= '9' as u32,
            CharTest::WordChar => ('a' as u32 <= c as u32 && c as u32 <= 'z' as u32) || ('A'
                as u32 <= c as u32 && c as u32 <= 'Z' as u32) || c == '_' || ('0' as u32 <= c
                as u32 && c as u32 <= '9' as u32),
            CharTest::NotQuote => c != '"',
        }
    }
}

/// Length of the longest prefix of `s` whose characters all satisfy `t`:
/// what [`Scan::take_while`] consumes.
pub open spec fn run_len(s: Seq<char>, t: CharTest) -> nat
    decreases s.len(),
{
    if s.len() == 0 || !t.spec_holds(s[0]) {
        0
    } else {
        1 + run_len(s.skip(1), t)
    }
}

/// Length of the prefix of `s` up to and including the first character
/// that satisfies `t`, or all of `s` if none does: what
/// [`Scan::take_until`] consumes.
pub open spec fn until_len(s: Seq<char>, t: CharTest) -> nat
    decreases s.len(),
{
    if s.len() == 0 {
        0
    } else if t.spec_holds(s[0]) {
        1
    } else {
        1 + until_len(s.skip(1), t)
    }
}

/// The run never reaches past the end of `s`, every character inside it
/// satisfies `t`, and the character just after it (if any) does not.
pub proof fn lemma_run_len_props(s: Seq<char>, t: CharTest)
    ensures
        run_len(s, t) <= s.len(),
        forall|i: int| 0 <= i < run_len(s, t) ==> t.spec_holds(#[trigger] s[i]),
        run_len(s, t) < s.len() ==> !t.spec_holds(s[run_len(s, t) as int]),
    decreases s.len(),
{
    if s.len() > 0 && t.spec_holds(s[0]) {
        lemma_run_len_props(s.skip(1), t);
        let k = run_len(s, t);
        assert forall|i: int| 0 <= i < k implies t.spec_holds(#[trigger] s[i]) by {
            if i > 0 {
                assert(s[i] == s.skip(1)[i - 1]);
            }
        }
        if k < s.len() {
            assert(s[k as int] == s.skip(1)[k - 1]);
        }
    }
}

/// Any cut of `s` whose first part all satisfies `t` and which ends at the
/// end of `s` or at a character that fails `t` is the run's length.
pub proof fn lemma_run_len_is(s: Seq<char>, t: CharTest, j: int)
    requires
        0 <= j <= s.len(),
        forall|i: int| 0 <= i < j ==> t.spec_holds(#[trigger] s[i]),
        j == s.len() || !t.spec_holds(s[j]),
    ensures
        run_len(s, t) == j,
    decreases s.len(),
{
    if j == 0 {
    } else {
        assert(t.spec_holds(s[0]));
        assert forall|i: int| 0 <= i < j - 1 implies t.spec_holds(#[trigger] s.skip(1)[i]) by {
            assert(s.skip(1)[i] == s[i + 1]);
        }
        if j < s.len() {
            assert(s.skip(1)[j - 1] == s[j]);
        }
        lemma_run_len_is(s.skip(1), t, j - 1);
    }
}

/// The consumed-until prefix never reaches past the end of `s`, only its
/// last character may satisfy `t`, and it ends either at the end of `s`
/// or just after the first character that satisfies `t`.
pub proof fn lemma_until_len_props(s: Seq<char>, t: CharTest)
    ensures
        until_len(s, t) <= s.len(),
        forall|i: int| 0 <= i < until_len(s, t) - 1 ==> !t.spec_holds(#[trigger] s[i]),
        until_len(s, t) < s.len() ==> t.spec_holds(s[until_len(s, t) - 1]),
    decreases s.len(),
{
    if s.len() > 0 && !t.spec_holds(s[0]) {
        lemma_until_len_props(s.skip(1), t);
        let k = until_len(s, t);
        assert forall|i: int| 0 <= i < k - 1 implies !t.spec_holds(#[trigger] s[i]) by {
            if i > 0 {
                assert(s[i] == s.skip(1)[i - 1]);
            }
        }
        if k < s.len() {
            assert(s[k - 1] == s.skip(1)[k - 2]);
        }
    }
}

/// A cut of `s` whose last character is the first to satisfy `t` is the
/// until-length.
pub proof fn lemma_until_len_is(s: Seq<char>, t: CharTest, j: int)
    requires
        1 <= j <= s.len(),
        forall|i: int| 0 <= i < j - 1 ==> !t.spec_holds(#[trigger] s[i]),
        t.spec_holds(s[j - 1]),
    ensures
        until_len(s, t) == j,
    decreases s.len(),
{
    if j == 1 {
    } else {
        assert(!t.spec_holds(s[0]));
        assert forall|i: int| 0 <= i < j - 2 implies !t.spec_holds(#[trigger] s.skip(1)[i]) by {
            assert(s.skip(1)[i] == s[i + 1]);
        }
        assert(s.skip(1)[j - 2] == s[j - 1]);
        lemma_until_len_is(s.skip(1), t, j - 1);
    }
}

/// Scan characters with arbitrary lookahead.
///
/// Provides low-level char parsing without knowing anything specific
/// about the grammar.  The whole input is held as a sequence of chars;
/// consumption moves a cursor forward, the position tracker follows every
/// consumed character, and the characters consumed since the last
/// [`Scan::start_token`] are accumulated as the current token.
pub struct Scan {
    chars: Vec<char>,
    idx: usize,
    start_idx: usize,
    token: String,
    next_place: Place,
    token_start: Place,
}

impl Scan {
    /// The characters not yet consumed.
    pub closed spec fn remaining(&self) -> Seq<char> {
        self.chars@.skip(self.idx as int)
    }

    /// The characters consumed since the last [`Scan::start_token`].
    pub closed spec fn token_text(&self) -> Seq<char> {
        self.token@
    }

    /// The location of the next character to be consumed.
    pub closed spec fn pos(&self) -> PlaceView {
        self.next_place@
    }

    /// The location recorded at the last [`Scan::start_token`].
    pub closed spec fn start_pos(&self) -> PlaceView {
        self.token_start@
    }

    /// The scanner's internal consistency: the cursor and the token mark
    /// lie within the input, the accumulated token is exactly the text
    /// between them, and both tracked locations are what the position
    /// tracker computes for their prefixes of the input.
    pub closed spec fn wf(&self) -> bool {
        &&& self.idx <= self.chars@.len()
        &&& self.start_idx <= self.idx
        &&& self.token@ == self.chars@.subrange(self.start_idx as int, self.idx as int)
        &&& self.next_place@ == place_advance_seq(start_place(), self.chars@.take(self.idx as int))
        &&& self.token_start@ == place_advance_seq(
            start_place(),
            self.chars@.take(self.start_idx as int),
        )
        &&& 8 * self.chars@.len() + 1 <= usize::MAX
    }

    /// Construct a scanner over the given source text, positioned at its
    /// first character.
    pub fn new(source: &str) -> (r: Scan)
        requires
            8 * source@.len() + 1 <= usize::MAX,
        ensures
            r.wf(),
            r.remaining() == source@,
            r.token_text() == Seq::<char>::empty(),
            r.pos() == start_place(),
            r.start_pos() == start_place(),
    {
        let n = source.unicode_len();
        let mut chars: Vec<char> = Vec::new();
        let mut i: usize = 0;
        while i < n
            invariant
                i <= n,
                n == source@.len(),
                chars@ == source@.take(i as int),
            decreases n - i,
        {
            let c = source.get_char(i);
            chars.push(c);
            proof {
                assert(source@.take(i + 1) =~= source@.take(i as int).push(c));
            }
            i = i + 1;
        }
        proof {
            assert(source@.take(n as int) =~= source@);
        }
        let r = Scan {
            chars,
            idx: 0,
            start_idx: 0,
            token: String::new(),
            next_place: Place::file_start(),
            token_start: Place::file_start(),
        };
        proof {
            assert(r.chars@.skip(0) =~= r.chars@);
            assert(r.chars@.take(0) =~= Seq::<char>::empty());
            assert(r.chars@.subrange(0, 0) =~= Seq::<char>::empty());
        }
        r
    }

    /// Begin recognizing a new token at the current position: the token
    /// accumulator becomes empty and the token's start is marked here.
    pub fn start_token(&mut self)
        requires
            old(self).wf(),
        ensures
            final(self).wf(),
            final(self).remaining() == old(self).remaining(),
            final(self).pos() == old(self).pos(),
            final(self).token_text() == Seq::<char>::empty(),
            final(self).start_pos() == old(self).pos(),
    {
        self.token = String::new();
        self.start_idx = self.idx;
        self.token_start = self.next_place;
        proof {
            assert(self.chars@.subrange(self.idx as int, self.idx as int)
                =~= Seq::<char>::empty());
        }
    }

    /// The text consumed since the last [`Scan::start_token`].
    pub fn current_token(&self) -> (r: &str)
        ensures
            r@ == self.token_text(),
    {
        self.token.as_str()
    }

    /// The [`Place`] where the current token starts.
    pub fn token_start(&self) -> (r: Place)
        ensures
            r@ == self.start_pos(),
    {
        self.token_start
    }

    /// The 1-based column of the next character that [`Scan::take`] would
    /// return.
    pub fn next_column(&self) -> (r: usize)
        ensures
            r as int == self.pos().column,
    {
        self.next_place.column
    }

    /// Consume and return one character, or `None` at the end of the
    /// input.
    ///
    /// All consumption goes through here, which keeps the position
    /// tracker and the token accumulator in step with the cursor.
    pub fn take(&mut self) -> (r: Option<char>)
        requires
            old(self).wf(),
        ensures
            final(self).wf(),
            old(self).remaining().len() == 0 ==> r is None && *final(self) == *old(self),
            old(self).remaining().len() > 0 ==> {
                &&& r == Some(old(self).remaining()[0])
                &&& final(self).remaining() == old(self).remaining().skip(1)
                &&& final(self).token_text() == old(self).token_text().push(
                    old(self).remaining()[0],
                )
                &&& final(self).pos() == place_advance(old(self).pos(), old(self).remaining()[0])
                &&& final(self).start_pos() == old(self).start_pos()
            },
    {
        if self.idx < self.chars.len() {
            let c = self.chars[self.idx];
            proof {
                lemma_place_advance_seq_bounds(
                    start_place(),
                    self.chars@.take(self.idx as int),
                );
            }
            self.next_place.advance(c);
            push_char(&mut self.token, c);
            let ghost pre = *old(self);
            self.idx = self.idx + 1;
            proof {
                assert(self.chars@.take(self.idx as int)
                    =~= self.chars@.take(pre.idx as int).push(c));
                lemma_place_advance_seq_push(
                    start_place(),
                    self.chars@.take(pre.idx as int),
                    c,
                );
                assert(self.chars@.subrange(self.start_idx as int, self.idx as int)
                    =~= self.chars@.subrange(self.start_idx as int, pre.idx as int).push(c));
                assert(self.remaining() =~= pre.remaining().skip(1));
                assert(pre.remaining()[0] == c);
            }
            Some(c)
        } else {
            proof {
                assert(self.remaining().len() == 0);
            }
            None
        }
    }

    /// Consume and return the next character if it satisfies the
    /// predicate, otherwise leave it alone and return `None`.
    pub fn take_if(&mut self, t: CharTest) -> (r: Option<char>)
        requires
            old(self).wf(),
        ensures
            final(self).wf(),
            ({
                let rem = old(self).remaining();
                if rem.len() > 0 && t.spec_holds(rem[0]) {
                    &&& r == Some(rem[0])
                    &&& final(self).remaining() == rem.skip(1)
                    &&& final(self).token_text() == old(self).token_text().push(rem[0])
                    &&& final(self).pos() == place_advance(old(self).pos(), rem[0])
                    &&& final(self).start_pos() == old(self).start_pos()
                } else {
                    r is None && *final(self) == *old(self)
                }
            }),
    {
        if let Some(c) = self.peek() {
            if t.holds(c) {
                return self.take();
            }
        }
        None
    }

    /// Consume characters while they satisfy the predicate.
    ///
    /// Consumed characters are accumulated into the current token but not
    /// returned.
    pub fn take_while(&mut self, t: CharTest)
        requires
            old(self).wf(),
        ensures
            final(self).wf(),
            ({
                let rem = old(self).remaining();
                let k = run_len(rem, t) as int;
                &&& final(self).remaining() == rem.skip(k)
                &&& final(self).token_text() == old(self).token_text() + rem.take(k)
                &&& final(self).pos() == place_advance_seq(old(self).pos(), rem.take(k))
                &&& final(self).start_pos() == old(self).start_pos()
            }),
    {
        let ghost s0 = *old(self);
        let ghost rem = s0.remaining();
        let ghost mut j: int = 0;
        proof {
            lemma_run_len_props(rem, t);
            assert(rem.skip(0) =~= rem);
            assert(rem.take(0) =~= Seq::<char>::empty());
            assert(s0.token_text() + rem.take(0) =~= s0.token_text());
        }
        loop
            invariant
                self.wf(),
                0 <= j <= run_len(rem, t),
                run_len(rem, t) <= rem.len(),
                forall|i: int| 0 <= i < run_len(rem, t) ==> t.spec_holds(#[trigger] rem[i]),
                run_len(rem, t) < rem.len() ==> !t.spec_holds(rem[run_len(rem, t) as int]),
                self.remaining() == rem.skip(j),
                self.token_text() == s0.token_text() + rem.take(j),
                self.pos() == place_advance_seq(s0.pos(), rem.take(j)),
                self.start_pos() == s0.start_pos(),
            ensures
                j == run_len(rem, t),
                self.wf(),
                self.remaining() == rem.skip(j),
                self.token_text() == s0.token_text() + rem.take(j),
                self.pos() == place_advance_seq(s0.pos(), rem.take(j)),
                self.start_pos() == s0.start_pos(),
            decreases rem.len() - j,
        {
            let ghost pre = *self;
            if self.take_if(t).is_none() {
                proof {
                    if j < run_len(rem, t) {
                        assert(pre.remaining()[0] == rem.skip(j)[0]);
                        assert(rem.skip(j)[0] == rem[j]);
                        assert(t.spec_holds(rem[j]));
                        assert(false);
                    }
                }
                break;
            }
            proof {
                assert(pre.remaining() == rem.skip(j));
                if j == run_len(rem, t) {
                    if rem.skip(j).len() > 0 {
                        assert(rem.skip(j)[0] == rem[j]);
                        assert(!t.spec_holds(rem[j]));
                    }
                    assert(false);
                }
                let c = rem.skip(j)[0];
                assert(c == rem[j]);
                assert(rem.skip(j).skip(1) =~= rem.skip(j + 1));
                assert(rem.take(j + 1) =~= rem.take(j).push(c));
                assert(s0.token_text() + rem.take(j + 1)
                    =~= (s0.token_text() + rem.take(j)).push(c));
                lemma_place_advance_seq_push(s0.pos(), rem.take(j), c);
                j = j + 1;
            }
        }
    }

    /// Take characters up to and including the first that satisfies the
    /// predicate, or through the end of the input if none does.
    ///
    /// Consumed characters are accumulated into the current token but not
    /// returned.
    pub fn take_until(&mut self, t: CharTest)
        requires
            old(self).wf(),
        ensures
            final(self).wf(),
            ({
                let rem = old(self).remaining();
                let k = until_len(rem, t) as int;
                &&& final(self).remaining() == rem.skip(k)
                &&& final(self).token_text() == old(self).token_text() + rem.take(k)
                &&& final(self).pos() == place_advance_seq(old(self).pos(), rem.take(k))
                &&& final(self).start_pos() == old(self).start_pos()
            }),
    {
        let ghost s0 = *old(self);
        let ghost rem = s0.remaining();
        let ghost mut j: int = 0;
        proof {
            lemma_until_len_props(rem, t);
            assert(rem.skip(0) =~= rem);
            assert(rem.take(0) =~= Seq::<char>::empty());
            assert(s0.token_text() + rem.take(0) =~= s0.token_text());
        }
        loop
            invariant_except_break
                j < until_len(rem, t) || j == rem.len(),
            invariant
                self.wf(),
                0 <= j <= until_len(rem, t),
                until_len(rem, t) <= rem.len(),
                forall|i: int| 0 <= i < until_len(rem, t) - 1 ==> !t.spec_holds(
                    #[trigger] rem[i],
                ),
                until_len(rem, t) < rem.len() ==> t.spec_holds(rem[until_len(rem, t) - 1]),
                self.remaining() == rem.skip(j),
                self.token_text() == s0.token_text() + rem.take(j),
                self.pos() == place_advance_seq(s0.pos(), rem.take(j)),
                self.start_pos() == s0.start_pos(),
            ensures
                j == until_len(rem, t),
                self.wf(),
                self.remaining() == rem.skip(j),
                self.token_text() == s0.token_text() + rem.take(j),
                self.pos() == place_advance_seq(s0.pos(), rem.take(j)),
                self.start_pos() == s0.start_pos(),
            decreases rem.len() - j,
        {
            let ghost pre = *self;
            match self.take() {
                None => {
                    proof {
                        assert(pre.remaining().len() == 0);
                        assert(rem.skip(j).len() == 0);
                        assert(j == rem.len());
                        assert(j == until_len(rem, t));
                    }
                    break;
                },
                Some(c) => {
                    proof {
                        assert(pre.remaining() == rem.skip(j));
                        assert(c == rem.skip(j)[0]);
                        assert(c == rem[j]);
                        assert(j < rem.len());
                        assert(j < until_len(rem, t));
                        assert(rem.skip(j).skip(1) =~= rem.skip(j + 1));
                        assert(rem.take(j + 1) =~= rem.take(j).push(c));
                        assert(s0.token_text() + rem.take(j + 1)
                            =~= (s0.token_text() + rem.take(j)).push(c));
                        lemma_place_advance_seq_push(s0.pos(), rem.take(j), c);
                        j = j + 1;
                    }
                    if t.holds(c) {
                        proof {
                            lemma_until_len_is(rem, t, j);
                        }
                        break;
                    }
                    proof {
                        if j == until_len(rem, t) {
                            if until_len(rem, t) < rem.len() {
                                assert(t.spec_holds(rem[j - 1]));
                                assert(false);
                            }
                            assert(j == rem.len());
                        }
                    }
                },
            }
        }
    }

    /// If the next character is `c` then consume it and return true;
    /// otherwise leave it alone and return false.
    pub fn take_exactly(&mut self, c: char) -> (r: bool)
        requires
            old(self).wf(),
        ensures
            final(self).wf(),
            r == (old(self).remaining().len() > 0 && old(self).remaining()[0] == c),
            r ==> {
                &&& final(self).remaining() == old(self).remaining().skip(1)
                &&& final(self).token_text() == old(self).token_text().push(c)
                &&& final(self).pos() == place_advance(old(self).pos(), c)
                &&& final(self).start_pos() == old(self).start_pos()
            },
            !r ==> *final(self) == *old(self),
    {
        if let Some(n) = self.peek() {
            if n == c {
                self.take();
                return true;
            }
        }
        false
    }

    /// Peek at the next character, if there is one, without consuming it.
    pub fn peek(&self) -> (r: Option<char>)
        requires
            self.wf(),
        ensures
            r == (if self.remaining().len() > 0 {
                Some(self.remaining()[0])
            } else {
                Option::<char>::None
            }),
    {
        self.peek_nth(0)
    }

    /// Peek at the next two characters, if there are two more characters,
    /// without consuming them.
    pub fn peek2(&self) -> (r: Option<(char, char)>)
        requires
            self.wf(),
        ensures
            r == (if self.remaining().len() >= 2 {
                Some((self.remaining()[0], self.remaining()[1]))
            } else {
                Option::<(char, char)>::None
            }),
    {
        match (self.peek_nth(0), self.peek_nth(1)) {
            (Some(a), Some(b)) => Some((a, b)),
            _ => None,
        }
    }

    /// Peek at the character `n` places ahead without consuming anything.
    fn peek_nth(&self, n: usize) -> (r: Option<char>)
        requires
            self.wf(),
        ensures
            r == (if n < self.remaining().len() {
                Some(self.remaining()[n as int])
            } else {
                Option::<char>::None
            }),
    {
        if n < self.chars.len() && self.idx <= self.chars.len() - 1 - n {
            Some(self.chars[self.idx + n])
        } else {
            None
        }
    }

    /// Return true if the scanner is at the end of the input.
    pub fn is_empty(&self) -> (r: bool)
        requires
            self.wf(),
        ensures
            r == (self.remaining().len() == 0),
    {
        self.peek().is_none()
    }
}

/// Relies on `String::push`: appends exactly the given character at the
/// end of the string.
#[verifier::external_body]
fn push_char(s: &mut String, c: char)
    ensures
        final(s)@ == old(s)@.push(c),
{
    s.push(c);
}

} // verus!
