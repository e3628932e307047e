use kror_lexer::cursor::cursor;
use kror_lexer::token::Char;

fn ch(line_num: usize, row_num: usize, c: char) -> Char {
    Char { line_num, row_num, c }
}

#[test]
fn empty_input_is_exhausted_immediately() {
    let mut cur = cursor(String::from(""));
    assert_eq!(cur.next(), None);
    assert_eq!(cur.next(), None);
}

#[test]
fn expansion_appends_one_terminator_per_line() {
    let mut cur = cursor(String::from("ab\ncd"));
    assert_eq!(cur.next(), Some(ch(1, 1, 'a')));
    assert_eq!(cur.next(), Some(ch(1, 2, 'b')));
    assert_eq!(cur.next(), Some(ch(1, 3, '\n')));
    assert_eq!(cur.next(), Some(ch(2, 1, 'c')));
    assert_eq!(cur.next(), Some(ch(2, 2, 'd')));
    assert_eq!(cur.next(), Some(ch(2, 3, '\n')));
    assert_eq!(cur.next(), None);
}

#[test]
fn expansion_folds_crlf_into_one_terminator() {
    let mut cur = cursor(String::from("a\r\nb"));
    assert_eq!(cur.next(), Some(ch(1, 1, 'a')));
    assert_eq!(cur.next(), Some(ch(1, 2, '\n')));
    assert_eq!(cur.next(), Some(ch(2, 1, 'b')));
    assert_eq!(cur.next(), Some(ch(2, 2, '\n')));
    assert_eq!(cur.next(), None);
}

#[test]
fn expansion_keeps_a_lone_carriage_return() {
    let mut cur = cursor(String::from("a\rb"));
    assert_eq!(cur.next(), Some(ch(1, 1, 'a')));
    assert_eq!(cur.next(), Some(ch(1, 2, '\r')));
    assert_eq!(cur.next(), Some(ch(1, 3, 'b')));
    assert_eq!(cur.next(), Some(ch(1, 4, '\n')));
    assert_eq!(cur.next(), None);
}

#[test]
fn consume_advances_only_on_a_match() {
    let mut cur = cursor(String::from("ab"));
    assert!(!cur.consume('x'));
    assert!(!cur.consume('b'));
    assert_eq!(cur.next(), Some(ch(1, 1, 'a')));
    assert!(!cur.consume('x'));
    assert!(cur.consume('b'));
    assert_eq!(cur.next(), Some(ch(1, 3, '\n')));
    assert!(!cur.consume('\n'));
    assert_eq!(cur.next(), None);
}

#[test]
fn skip_stops_at_the_first_rejected_character() {
    let mut cur = cursor(String::from("aab"));
    cur.skip(|c| c == 'a');
    assert_eq!(cur.next(), Some(ch(1, 3, 'b')));
}

#[test]
fn skip_may_consume_to_exhaustion() {
    let mut cur = cursor(String::from("aaa"));
    cur.skip(|c| c == 'a' || c == '\n');
    assert_eq!(cur.next(), None);
}
