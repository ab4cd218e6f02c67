use org_cursor::cursor::StrCursor;
use org_cursor::metric::{CharMetric, NewlineMetric};
use regex::Regex;

fn headline_short() -> Regex {
    Regex::new(r"^\*{1,6} ").unwrap()
}

fn empty_line() -> Regex {
    Regex::new(r"^[ \t]*$").unwrap()
}

#[test]
fn essentials() {
    let input = "1234567890\nЗдравствуйте";
    let mut cursor = StrCursor::new(&input, 0);
    assert_eq!('1', cursor.get_next_char().unwrap());
    assert_eq!(1, cursor.pos());
    assert_eq!('2', cursor.get_next_char().unwrap());
    assert_eq!(2, cursor.pos());
    assert_eq!(11, cursor.next::<NewlineMetric>().unwrap());
    assert!(cursor.is_boundary::<NewlineMetric>());
    assert_eq!('З', cursor.get_next_char().unwrap());
    assert_eq!(13, cursor.pos());
    cursor.set(12);
    assert!(!cursor.is_boundary::<CharMetric>());
}

#[test]
fn looking_at_headline() {
    let rope = "Some text\n**** headline\n";
    let mut cursor = StrCursor::new(&rope, 0);
    let re = headline_short();
    assert!(cursor.looking_at(&re).is_none());

    cursor.set(4);
    assert!(cursor.looking_at(&re).is_none());
    assert_eq!(4, cursor.pos());

    cursor.set(15);
    assert!(cursor.looking_at(&re).is_none());

    cursor.set(10);

    let m = cursor.looking_at(&re).unwrap();
    assert_eq!(0, m.start);
    assert_eq!(5, m.end);
    assert_eq!("**** ", &rope[10 + m.start..10 + m.end]);
    assert_eq!(10, cursor.pos());
}

#[test]
fn looking_at_empty_line_re() {
    let text = "First line\n   \n\nFourth line";
    let mut cursor = StrCursor::new(&text, 0);
    let re = empty_line();

    assert!(cursor.looking_at(&re).is_none());
    cursor.goto_next_line();
    assert!(cursor.looking_at(&re).is_some());
    cursor.goto_next_line();
    assert!(cursor.looking_at(&re).is_some());
    cursor.goto_next_line();
    assert!(cursor.looking_at(&re).is_none());
}

#[test]
fn skip_whitespaces() {
    let rope = " \n\t\rorg-mode ";
    let mut cursor = StrCursor::new(&rope, 0);
    cursor.skip_whitespace();
    assert_eq!(cursor.get_next_char().unwrap(), 'o');

    let rope2 = "no_whitespace_for_you!";
    cursor = StrCursor::new(&rope2, 0);
    cursor.skip_whitespace();
    assert_eq!(cursor.get_next_char().unwrap(), 'n');

    // Skipping all the remaining whitespace leaves the cursor at the end
    let rope3 = " ";
    cursor = StrCursor::new(&rope3, 0);
    cursor.skip_whitespace();
    assert_eq!(None, cursor.get_next_char());
}

#[test]
fn line_begin() {
    let rope = "First line\nSecond line\r\nThird line";
    let mut cursor = StrCursor::new(&rope, 13);
    assert_eq!(cursor.goto_line_begin(), 11);
    assert_eq!(cursor.goto_line_begin(), 11);
    assert_eq!(cursor.goto_line_begin(), 11);
    cursor.set(26);
    assert_eq!(cursor.goto_line_begin(), 24);
    assert!(cursor.is_bol());
    assert_eq!(cursor.get_next_char().unwrap(), 'T');
    assert_eq!(cursor.goto_line_begin(), 24);
    assert_eq!(cursor.get_next_char().unwrap(), 'T');
    cursor.set(3);
    assert_eq!(cursor.goto_line_begin(), 0);
    assert_eq!(cursor.get_next_char().unwrap(), 'F');
}

#[test]
fn prev_line() {
    let rope = "First line\nSecond line\r\nThird line\nFour";
    let mut cursor = StrCursor::new(&rope, rope.len());

    assert_eq!(cursor.goto_prev_line(), 24);
    assert_eq!(cursor.get_next_char().unwrap(), 'T');

    assert_eq!(cursor.goto_prev_line(), 11);
    assert_eq!(cursor.get_next_char().unwrap(), 'S');

    assert_eq!(cursor.goto_prev_line(), 0);
    assert_eq!(cursor.get_next_char().unwrap(), 'F');
}

#[test]
fn line_begin_pos() {
    let rope = "One\nTwo\nThi\nFo4\nFiv\nSix\n7en";
    let mut cursor = StrCursor::new(&rope, 13);

    assert_eq!(cursor.line_beginning_position(None), 12);
    assert_eq!(cursor.line_beginning_position(Some(1)), 12);
    assert_eq!(cursor.line_beginning_position(Some(2)), 16);
    assert_eq!(cursor.line_beginning_position(Some(3)), 20);

    assert_eq!(cursor.line_beginning_position(Some(0)), 8);
    assert_eq!(cursor.line_beginning_position(Some(-1)), 4);
    assert_eq!(cursor.line_beginning_position(Some(-2)), 0);
}

#[test]
fn line_end_pos() {
    let text = "One\nTwo\nThi\nFo4\nFiv\nSix\n7en";
    let mut cursor = StrCursor::new(&text, 13);

    assert_eq!(27, text.len());
    // Moving forward
    assert_eq!(cursor.line_end_position(None), 15);
    assert_eq!(cursor.line_end_position(Some(1)), 15);
    assert_eq!(cursor.line_end_position(Some(2)), 19);
    assert_eq!(cursor.line_end_position(Some(3)), 23);
    assert_eq!(cursor.line_end_position(Some(4)), 26);

    // Moving backward
    assert_eq!(cursor.line_end_position(Some(0)), 11);
    assert_eq!(cursor.line_end_position(Some(-1)), 7);
    assert_eq!(cursor.line_end_position(Some(-2)), 3);
    assert_eq!(cursor.line_end_position(Some(-3)), 3);
}

#[test]
fn is_bol() {
    let rope = "One\nTwo\nThi\nFo4\nFiv\nSix\n7en";
    let mut cursor = StrCursor::new(&rope, 0);
    assert!(cursor.is_bol());
    cursor.set(2);
    assert!(!cursor.is_bol());
    cursor.set(4);
    assert!(cursor.is_bol());
    cursor.set(rope.len());
    assert!(!cursor.is_bol());

    cursor.prev::<NewlineMetric>();
    assert!(cursor.is_bol());
    cursor.goto_prev_line();
    assert!(cursor.is_bol());
    cursor.goto_next_line();
    assert!(cursor.is_bol());
}

#[test]
fn search_forward() {
    let str = "onetwothreefouronetwothreeonetwothreeonetwothreefouroneabababa";
    let mut cursor = StrCursor::new(&str, 0);
    assert_eq!(cursor.search_forward("one", None, Some(2)), Some(18));
    assert_eq!(cursor.search_forward("one", None, None), Some(29));
    cursor.set(0);
    // there is no match before the 10th position
    assert_eq!(cursor.search_forward("threeone", Some(10), None), None);
    // there is no 10th match
    assert_eq!(cursor.search_forward("threeone", Some(100), Some(10)), None);
    assert_eq!(cursor.search_forward("two", None, Some(4)), Some(43));
    assert_eq!(cursor.pos(), 43);
    // the bound is before the cursor
    assert_eq!(cursor.search_forward("aba", Some(10), None), None);
    assert_eq!(cursor.pos(), 43);
    assert_eq!(cursor.search_forward("aba", Some(10000), Some(2)), Some(62));
    cursor.set(0);
    assert_eq!(cursor.search_forward("aba", Some(10000), Some(6)), None);
}

#[test]
fn skip_chars_forward() {
    let str = "  k\t **hello";
    let mut cursor = StrCursor::new(&str, 0);
    assert_eq!(cursor.skip_chars_forward(" ", None), 2);
    assert_eq!(cursor.pos(), 2);
    assert_eq!(cursor.skip_chars_forward(" k\t", None), 3);
    cursor.set(0);
    // the limit is never passed
    assert_eq!(cursor.skip_chars_forward("* k\t", Some(2)), 2);
    assert_eq!(cursor.pos(), 2);
}

#[test]
fn skip_chars_backward() {
    let text = "This is some text 123 \t\n\r";
    let mut cursor = StrCursor::new(&text, text.len());
    assert_eq!(8, cursor.skip_chars_backward(" \t\n\r123", None));
    assert_eq!(17, cursor.pos());
    assert_eq!(' ', cursor.get_next_char().unwrap());

    cursor.set(text.len());
    assert_eq!(1, cursor.skip_chars_backward(" \t\n\r", Some(24)));
    assert_eq!('\r', cursor.get_next_char().unwrap());

    let txt2 = "Text";
    cursor = StrCursor::new(&txt2, txt2.len());
    assert_eq!(0, cursor.skip_chars_backward("", None));
}

#[test]
fn re_search_forward() {
    let text = "One\nTwo\nThi\nFo4\nFiv\nSix\n7en";
    let mut cursor = StrCursor::new(&text, 0);

    let re = Regex::new(r"\d").unwrap();
    assert_eq!(14, cursor.re_search_forward(&re, None).unwrap().start);
    assert_eq!(15, cursor.pos());
    assert_eq!(None, cursor.re_search_forward(&re, Some(10)));
    assert_eq!(15, cursor.pos());
    assert_eq!(24, cursor.re_search_forward(&re, Some(25)).unwrap().start);
    assert_eq!(25, cursor.pos());
    assert_eq!(None, cursor.re_search_forward(&re, Some(24)));
    assert_eq!(25, cursor.pos());
}
