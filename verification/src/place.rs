//! A (line, column) location in the source, for error reporting.

use vstd::prelude::*;

verus! {

/// Ghost image of a [`Place`]: the same location with unbounded integers,
/// so that contracts never have to speak about machine-word overflow.
pub struct PlaceView {
    pub line: int,
    pub column: int,
}

/// A (line, column) location in the source, for error reporting.
/// Both fields are 1-based.
#[derive(Debug, PartialEq, Eq, Clone, Copy)]
pub struct Place {
    /// 1-based line number.
    pub line: usize,
    /// 1-based column, measured in chars.
    pub column: usize,
}

impl View for Place {
    type V = PlaceView;

    open spec fn view(&self) -> PlaceView {
        PlaceView { line: self.line as int, column: self.column as int }
    }
}

/// The location (1, 1): the start of a file.
pub open spec fn start_place() -> PlaceView {
    PlaceView { line: 1, column: 1 }
}

/// Both coordinates of a location are 1-based.
pub open spec fn place_ok(p: PlaceView) -> bool {
    p.line >= 1 && p.column >= 1
}

/// The columns where a tab lands: 1, 9, 17, and so on.
pub open spec fn is_tab_stop(v: int) -> bool {
    (v - 1) % 8 == 0
}

/// Where the character after `c` sits when `c` itself sits at `p`:
/// a newline opens the next line at column 1, a tab jumps to the next
/// tab stop (the columns congruent to 1 modulo 8), and any other
/// character moves one column to the right.
pub open spec fn place_advance(p: PlaceView, c: char) -> PlaceView {
    if c == '\n' {
        PlaceView { line: p.line + 1, column: 1 }
    } else if c == '\t' {
        PlaceView { line: p.line, column: p.column + 8 - ((p.column - 1) % 8) }
    } else {
        PlaceView { line: p.line, column: p.column + 1 }
    }
}

/// The location reached from `p` after passing over every character of `s`.
pub open spec fn place_advance_seq(p: PlaceView, s: Seq<char>) -> PlaceView
    decreases s.len(),
{
    if s.len() == 0 {
        p
    } else {
        place_advance_seq(place_advance(p, s[0]), s.skip(1))
    }
}

/// Advancing distributes over splitting the character sequence.
pub proof fn lemma_place_advance_seq_concat(p: PlaceView, s: Seq<char>, t: Seq<char>)
    ensures
        place_advance_seq(p, s + t) == place_advance_seq(place_advance_seq(p, s), t),
    decreases s.len(),
{
    if s.len() == 0 {
        assert(s + t =~= t);
    } else {
        assert((s + t).skip(1) =~= s.skip(1) + t);
        lemma_place_advance_seq_concat(place_advance(p, s[0]), s.skip(1), t);
    }
}

/// Advancing by one more character at the end of the sequence.
pub proof fn lemma_place_advance_seq_push(p: PlaceView, s: Seq<char>, c: char)
    ensures
        place_advance_seq(p, s.push(c)) == place_advance(place_advance_seq(p, s), c),
{
    assert(s.push(c) =~= s + seq![c]);
    lemma_place_advance_seq_concat(p, s, seq![c]);
    let q = place_advance_seq(p, s);
    assert(seq![c].skip(1) =~= Seq::<char>::empty());
    assert(place_advance_seq(q, seq![c]) == place_advance_seq(place_advance(q, c), seq![c].skip(1)));
    assert(place_advance_seq(place_advance(q, c), Seq::<char>::empty()) == place_advance(q, c));
}

/// Advancing over a single character is one advance.
pub proof fn lemma_place_advance_seq_singleton(p: PlaceView, c: char)
    ensures
        place_advance_seq(p, seq![c]) == place_advance(p, c),
{
    assert(seq![c].skip(1) =~= Seq::<char>::empty());
    assert(place_advance_seq(place_advance(p, c), Seq::<char>::empty()) == place_advance(p, c));
}

/// Advancing over `s` keeps the line within `s.len()` lines of where it
/// began, and the column within `8 * s.len()` columns of column 1.
pub proof fn lemma_place_advance_seq_bounds(p: PlaceView, s: Seq<char>)
    requires
        place_ok(p),
    ensures
        place_ok(place_advance_seq(p, s)),
        place_advance_seq(p, s).line <= p.line + s.len(),
        place_advance_seq(p, s).column <= 1 + 8 * s.len() || place_advance_seq(p, s).column
            <= p.column + 8 * s.len(),
    decreases s.len(),
{
    if s.len() > 0 {
        lemma_place_advance_seq_bounds(place_advance(p, s[0]), s.skip(1));
    }
}

/// A tab always lands on a tab stop: the new column is the smallest
/// column strictly beyond the old one that is congruent to 1 modulo 8.
pub proof fn lemma_tab_advances_to_next_tab_stop(p: PlaceView)
    requires
        place_ok(p),
    ensures
        place_advance(p, '\t').line == p.line,
        place_advance(p, '\t').column > p.column,
        is_tab_stop(place_advance(p, '\t').column),
        forall|v: int| p.column < v < place_advance(p, '\t').column ==> !is_tab_stop(v),
{
    let c = p.column;
    let v = c + 8 - ((c - 1) % 8);
    assert((v - 1) % 8 == 0) by {
        assert(v - 1 == (c - 1) - ((c - 1) % 8) + 8);
        assert(((c - 1) - ((c - 1) % 8)) % 8 == 0) by (nonlinear_arith)
            requires c >= 1;
    }
    assert forall|w: int| c < w < v implies !is_tab_stop(w) by {
        assert((w - 1) - ((c - 1) - ((c - 1) % 8)) < 8);
        assert((w - 1) % 8 != 0) by (nonlinear_arith)
            requires
                c >= 1,
                c < w,
                w < c + 8 - ((c - 1) % 8),
        ;
    }
}

impl Place {
    /// Construct the Place (1, 1), the start of a file.
    pub fn file_start() -> (r: Place)
        ensures
            r@ == start_place(),
    {
        Place::new(1, 1)
    }

    /// Construct a new Place at the given 1-based line and column.
    pub fn new(line: usize, column: usize) -> (r: Place)
        requires
            line >= 1,
            column >= 1,
        ensures
            r@ == (PlaceView { line: line as int, column: column as int }),
            place_ok(r@),
    {
        Place { line, column }
    }

    /// Advance by one character, accounting for tabs and newlines.
    pub fn advance(&mut self, c: char)
        requires
            place_ok(old(self)@),
            old(self)@.line + 1 <= usize::MAX,
            old(self)@.column + 8 <= usize::MAX,
        ensures
            final(self)@ == place_advance(old(self)@, c),
            place_ok(final(self)@),
    {
        if c == '\n' {
            self.line = self.line + 1;
            self.column = 1;
        } else if c == '\t' {
            self.column = self.column + (8 - ((self.column - 1) % 8));
        } else {
            self.column = self.column + 1;
        }
    }
}

} // verus!
