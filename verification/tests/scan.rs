//! The character scanner and the position tracker, exercised directly.

use mbplox::place::Place;
use mbplox::scan::{CharTest, Scan};

#[test]
fn place_advance_walks_lines_and_tab_stops() {
    let mut place = Place::file_start();
    assert_eq!(place, Place::new(1, 1));
    place.advance('a');
    assert_eq!(place, Place::new(1, 2));
    place.advance('\t');
    assert_eq!(place, Place::new(1, 9));
    place.advance('\t');
    assert_eq!(place, Place::new(1, 17));
    place.advance('\n');
    assert_eq!(place, Place::new(2, 1));
}

#[test]
fn take_consumes_in_order_and_ends_with_none() {
    let mut scan = Scan::new("ab");
    assert!(!scan.is_empty());
    assert_eq!(scan.take(), Some('a'));
    assert_eq!(scan.take(), Some('b'));
    assert!(scan.is_empty());
    assert_eq!(scan.take(), None);
}

#[test]
fn peeking_does_not_consume() {
    let mut scan = Scan::new("xyz");
    assert_eq!(scan.peek(), Some('x'));
    assert_eq!(scan.peek(), Some('x'));
    assert_eq!(scan.peek2(), Some(('x', 'y')));
    assert_eq!(scan.take(), Some('x'));
    assert_eq!(scan.peek2(), Some(('y', 'z')));
    assert_eq!(scan.take(), Some('y'));
    assert_eq!(scan.peek2(), None);
    assert_eq!(scan.peek(), Some('z'));
}

#[test]
fn current_token_accumulates_from_start_token() {
    let mut scan = Scan::new("one two");
    scan.start_token();
    scan.take_while(CharTest::WordChar);
    assert_eq!(scan.current_token(), "one");
    assert_eq!(scan.token_start(), Place::new(1, 1));
    scan.take();
    scan.start_token();
    scan.take_while(CharTest::WordChar);
    assert_eq!(scan.current_token(), "two");
    assert_eq!(scan.token_start(), Place::new(1, 5));
    assert!(scan.is_empty());
}

#[test]
fn take_while_stops_at_the_first_mismatch() {
    let mut scan = Scan::new("123abc");
    scan.start_token();
    scan.take_while(CharTest::Digit);
    assert_eq!(scan.current_token(), "123");
    assert_eq!(scan.peek(), Some('a'));
}

#[test]
fn take_until_consumes_the_terminator() {
    let mut scan = Scan::new("abc\ndef");
    scan.start_token();
    scan.take_until(CharTest::Newline);
    assert_eq!(scan.current_token(), "abc\n");
    assert_eq!(scan.peek(), Some('d'));
    assert_eq!(scan.next_column(), 1);
}

#[test]
fn take_until_without_terminator_reaches_the_end() {
    let mut scan = Scan::new("abc");
    scan.start_token();
    scan.take_until(CharTest::Newline);
    assert_eq!(scan.current_token(), "abc");
    assert!(scan.is_empty());
}

#[test]
fn take_exactly_consumes_only_on_a_match() {
    let mut scan = Scan::new("=!");
    assert!(scan.take_exactly('='));
    assert!(!scan.take_exactly('='));
    assert!(scan.take_exactly('!'));
    assert!(!scan.take_exactly('!'));
}

#[test]
fn take_if_tests_the_next_character() {
    let mut scan = Scan::new("a1");
    assert_eq!(scan.take_if(CharTest::Digit), None);
    assert_eq!(scan.take_if(CharTest::WordChar), Some('a'));
    assert_eq!(scan.take_if(CharTest::Digit), Some('1'));
    assert_eq!(scan.take_if(CharTest::Digit), None);
}
