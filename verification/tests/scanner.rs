use lisp::scanner::Scanner;
use lisp::Location;

fn loc(line: usize, col: usize) -> Location {
    Location { line, col }
}

#[test]
fn new_scanner_bookkeeping() {
    let s = Scanner::new("abc");
    assert_eq!(s.index(), 0);
    assert_eq!(s.len(), 3);
    assert!(!s.is_empty());
    assert!(s.not_empty());
    assert_eq!(s.loc(), loc(1, 1));
}

#[test]
fn empty_scanner() {
    let s = Scanner::new("");
    assert!(s.is_empty());
    assert!(!s.not_empty());
    assert_eq!(s.len(), 0);
}

#[test]
fn next_advances_and_tracks_location() {
    let mut s = Scanner::new("a\nb");
    assert_eq!(s.next(), Some('a'));
    assert_eq!(s.loc(), loc(1, 2));
    assert_eq!(s.next(), Some('\n'));
    assert_eq!(s.loc(), loc(2, 1));
    assert_eq!(s.next(), Some('b'));
    assert_eq!(s.loc(), loc(2, 2));
    assert_eq!(s.next(), None);
    assert_eq!(s.index(), 3);
}

#[test]
fn take_consumes_only_on_match() {
    let mut s = Scanner::new("ab");
    assert_eq!(s.take('x'), None);
    assert_eq!(s.index(), 0);
    assert_eq!(s.take('a'), Some('a'));
    assert_eq!(s.index(), 1);
}

#[test]
fn skip_consumes_count_characters() {
    let mut s = Scanner::new("hello");
    assert_eq!(s.skip(0), None);
    assert_eq!(s.skip(6), None);
    assert_eq!(s.skip(2), Some("he".to_string()));
    assert_eq!(s.index(), 2);
}

#[test]
fn peek_does_not_advance() {
    let s = Scanner::new("xy");
    assert_eq!(s.peek(), Some('x'));
    assert_eq!(s.peek(), Some('x'));
    assert_eq!(s.index(), 0);
}

#[test]
fn next_is_and_one_of() {
    let s = Scanner::new("+a");
    assert!(s.next_is('+'));
    assert!(!s.next_is('a'));
    assert!(s.next_is_one_of("*+-"));
    assert!(!s.next_is_one_of("()"));
}

#[test]
fn next_matches_predicate() {
    let s = Scanner::new("7");
    assert!(s.next_matches(|c: char| c.is_ascii_digit()));
    assert!(!s.next_matches(|c: char| c.is_alphabetic()));
}

#[test]
fn take_while_consumes_maximal_run() {
    let mut s = Scanner::new("123ab");
    assert_eq!(
        s.take_while(|c: char| c.is_ascii_digit()),
        Some("123".to_string())
    );
    assert_eq!(s.index(), 3);
    // an empty run yields None, not an empty string
    assert_eq!(s.take_while(|c: char| c.is_ascii_digit()), None);
    assert_eq!(s.index(), 3);
}

#[test]
fn take_if_consumes_single_matching_character() {
    let mut s = Scanner::new("ab");
    assert_eq!(s.take_if(|c: char| c == 'a'), Some('a'));
    assert_eq!(s.take_if(|c: char| c == 'x'), None);
    assert_eq!(s.index(), 1);
}

#[test]
fn take_until_stops_at_match() {
    let mut s = Scanner::new("abc\ndef");
    assert_eq!(s.take_until(|c: char| c == '\n'), Some("abc".to_string()));
    assert_eq!(s.index(), 3);
    assert!(s.next_is('\n'));
}

#[test]
fn peek_while_leaves_cursor_in_place() {
    let mut s = Scanner::new("123ab");
    assert_eq!(
        s.peek_while(|c: char| c.is_ascii_digit()),
        Some("123".to_string())
    );
    assert_eq!(s.index(), 0);
    assert_eq!(s.peek_while(|c: char| c == 'x'), None);
}

#[test]
fn peek_until_leaves_cursor_in_place() {
    let mut s = Scanner::new("abc def");
    assert_eq!(s.peek_until(|c: char| c == ' '), Some("abc".to_string()));
    assert_eq!(s.index(), 0);
}

#[test]
fn line_col_walks_the_prefix() {
    let s = Scanner::new("ab\ncd");
    assert_eq!(s.line_col(0), loc(1, 1));
    assert_eq!(s.line_col(2), loc(1, 3));
    assert_eq!(s.line_col(3), loc(2, 1));
    assert_eq!(s.line_col(5), loc(2, 3));
    // an index past the end is clamped to the end
    assert_eq!(s.line_col(99), loc(2, 3));
}
