use org_cursor::cursor::StrCursor;
use org_cursor::lexeme::{CharLexeme, Lexeme};
use org_cursor::metric::{CharMetric, Metric, NewlineMetric};
use org_cursor::pattern::{anchored, is_multiline_regex, Interval};
use regex::Regex;

#[test]
fn char_next_then_prev_returns() {
    let text = "aЗ€😀b";
    let mut cursor = StrCursor::new(&text, 0);
    let mut starts = vec![0];
    while let Some(k) = cursor.next::<CharMetric>() {
        starts.push(k);
    }
    assert_eq!(starts, vec![0, 1, 3, 6, 10, 11]);
    for w in starts.windows(2) {
        cursor.set(w[0]);
        assert_eq!(cursor.next::<CharMetric>(), Some(w[1]));
        assert_eq!(cursor.prev::<CharMetric>(), Some(w[0]));
        cursor.set(w[1]);
        assert_eq!(cursor.prev::<CharMetric>(), Some(w[0]));
        assert_eq!(cursor.next::<CharMetric>(), Some(w[1]));
    }
}

#[test]
fn char_metric_at_ends() {
    let text = "é";
    assert_eq!(CharMetric::next(text, 2), None);
    assert_eq!(CharMetric::prev(text, 0), None);
    assert_eq!(CharMetric::prev(text, 2), Some(0));
    assert_eq!(CharMetric::next(text, 1), Some(2));
    assert!(!CharMetric::is_boundary(text, 1));
    assert_eq!(CharMetric::at_or_next(text, 1), Some(2));
    assert_eq!(CharMetric::at_or_prev(text, 1), Some(0));
    assert_eq!(CharMetric::at_or_next(text, 0), Some(0));
}

#[test]
fn char_length_from_first_byte() {
    assert_eq!(CharMetric::len_utf8_from_first_byte(b'a'), 1);
    assert_eq!(CharMetric::len_utf8_from_first_byte(0xd0), 2);
    assert_eq!(CharMetric::len_utf8_from_first_byte(0xe2), 3);
    assert_eq!(CharMetric::len_utf8_from_first_byte(0xf0), 4);
}

#[test]
fn newline_metric_queries() {
    let text = "ab\ncd\n\nef";
    assert_eq!(NewlineMetric::next(text, 0), Some(3));
    assert_eq!(NewlineMetric::next(text, 3), Some(6));
    assert_eq!(NewlineMetric::next(text, 6), Some(7));
    assert_eq!(NewlineMetric::next(text, 7), None);
    assert_eq!(NewlineMetric::prev(text, 9), Some(7));
    assert_eq!(NewlineMetric::prev(text, 7), Some(6));
    assert_eq!(NewlineMetric::prev(text, 3), None);
    assert_eq!(NewlineMetric::prev(text, 0), None);
    assert!(NewlineMetric::is_boundary(text, 3));
    assert!(!NewlineMetric::is_boundary(text, 0));
    assert!(!NewlineMetric::is_boundary(text, 4));
}

#[test]
fn next_newline_example() {
    let mut cursor = StrCursor::new("1234567890\nHello", 0);
    assert_eq!(cursor.next::<NewlineMetric>(), Some(11));
    assert!(cursor.is_boundary::<NewlineMetric>());
    assert_eq!(cursor.next::<NewlineMetric>(), None);
    assert_eq!(cursor.pos(), 11);
}

#[test]
fn line_begin_twice_is_once() {
    let text = "ab\n\ncd\nef";
    for p in 0..=text.len() {
        let mut cursor = StrCursor::new(&text, p);
        let once = cursor.goto_line_begin();
        assert_eq!(cursor.goto_line_begin(), once);
    }
}

#[test]
fn line_positions_keep_cursor() {
    let text = "One\nTwo\nThi\nFo4\nFiv\nSix\n7en";
    let mut cursor = StrCursor::new(&text, 13);
    for n in [None, Some(-5), Some(-1), Some(0), Some(1), Some(2), Some(9)] {
        cursor.line_beginning_position(n);
        assert_eq!(cursor.pos(), 13);
        cursor.line_end_position(n);
        assert_eq!(cursor.pos(), 13);
    }
    assert_eq!(cursor.line_beginning_position(Some(-2)), 0);
    assert_eq!(cursor.line_end_position(Some(-3)), 3);
    assert_eq!(cursor.line_beginning_position(Some(9)), 27);
    assert_eq!(cursor.line_end_position(Some(9)), 26);
    assert_eq!(cursor.line_beginning_position(Some(i32::MIN)), 0);
}

#[test]
fn line_positions_at_start() {
    let text = "ab\ncd";
    let mut cursor = StrCursor::new(&text, 0);
    assert_eq!(cursor.line_beginning_position(Some(0)), 0);
    // before the first line there is none: its own end is taken
    assert_eq!(cursor.line_end_position(Some(0)), 2);
    assert_eq!(cursor.line_end_position(None), 2);
    assert_eq!(cursor.pos(), 0);
}

#[test]
fn search_forward_counts_progress() {
    let text = "onetwothreefouronetwothreeonetwothreeonetwothreefouroneabababa";
    let mut last = 0;
    for k in 1..=5 {
        let mut cursor = StrCursor::new(&text, 0);
        let r = cursor.search_forward("one", None, Some(k)).unwrap();
        assert!(r > last);
        last = r;
    }
    let mut cursor = StrCursor::new(&text, 0);
    assert_eq!(cursor.search_forward("one", None, Some(6)), None);
    assert_eq!(cursor.search_forward("one", None, Some(0)), None);
    assert_eq!(cursor.pos(), 0);
    assert_eq!(cursor.search_forward("one", None, Some(2)), Some(18));
    assert_eq!(cursor.search_forward("one", None, None), Some(29));
}

#[test]
fn search_forward_non_overlapping_and_bound() {
    let mut cursor = StrCursor::new("aaaa", 0);
    assert_eq!(cursor.search_forward("aa", None, Some(2)), Some(4));
    cursor.set(0);
    assert_eq!(cursor.search_forward("aa", Some(3), Some(2)), None);
    assert_eq!(cursor.search_forward("aa", Some(2), None), Some(2));
    let mut cursor = StrCursor::new("hé", 0);
    assert_eq!(cursor.search_forward("", None, Some(3)), Some(3));
    cursor.set(0);
    assert_eq!(cursor.search_forward("", None, Some(4)), None);
}

#[test]
fn skip_forward_then_back_restores() {
    let text = "xx  \t\tйй yy";
    let cs = " \tй";
    let mut cursor = StrCursor::new(&text, 2);
    let n = cursor.skip_chars_forward(cs, None);
    assert_eq!(n, 7);
    assert_eq!(cursor.pos(), 11);
    assert_eq!(cursor.skip_chars_backward(cs, Some(2)), n);
    assert_eq!(cursor.pos(), 2);
}

#[test]
fn skip_chars_limits() {
    let text = "aaaa";
    let mut cursor = StrCursor::new(&text, 3);
    assert_eq!(cursor.skip_chars_forward("a", Some(2)), 0);
    assert_eq!(cursor.pos(), 3);
    assert_eq!(cursor.skip_chars_backward("a", Some(3)), 0);
    assert_eq!(cursor.skip_chars_backward("a", Some(1)), 2);
    assert_eq!(cursor.pos(), 1);
    let mut cursor = StrCursor::new("éé", 0);
    assert_eq!(cursor.skip_chars_forward("é", Some(3)), 1);
    assert_eq!(cursor.pos(), 2);
}

#[test]
fn skip_whitespace_unicode() {
    let text = "\u{3000}\u{a0} x";
    let mut cursor = StrCursor::new(&text, 0);
    assert_eq!(cursor.skip_whitespace(), 6);
    assert_eq!(cursor.get_next_char(), Some('x'));
    let mut cursor = StrCursor::new("", 0);
    assert_eq!(cursor.skip_whitespace(), 0);
}

#[test]
fn positioning_is_clamped() {
    let mut cursor = StrCursor::new("abc", 10);
    assert_eq!(cursor.pos(), 3);
    cursor.set(1);
    cursor.inc(1);
    assert_eq!(cursor.pos(), 2);
    cursor.inc(usize::MAX);
    assert_eq!(cursor.pos(), 3);
    cursor.dec(2);
    assert_eq!(cursor.pos(), 1);
    cursor.dec(5);
    assert_eq!(cursor.pos(), 0);
    cursor.set(99);
    assert_eq!(cursor.pos(), 3);
    assert_eq!(cursor.data(), "abc");
}

#[test]
fn char_after_and_prev_char() {
    let mut cursor = StrCursor::new("aЗb", 3);
    assert_eq!(cursor.char_after(1), Some('З'));
    assert_eq!(cursor.char_after(4), None);
    assert_eq!(cursor.pos(), 3);
    assert_eq!(cursor.get_prev_char(), Some('З'));
    assert_eq!(cursor.pos(), 1);
    assert_eq!(cursor.get_prev_char(), Some('a'));
    assert_eq!(cursor.get_prev_char(), None);
    assert_eq!(cursor.pos(), 0);
}

#[test]
fn char_lexeme_steps() {
    let text = "aЗb";
    let next = CharLexeme::next(text, 0).unwrap();
    assert_eq!((next.value, next.address), ('З', 1));
    let prev = CharLexeme::prev(text, 3).unwrap();
    assert_eq!((prev.value, prev.address), ('З', 1));
    assert!(CharLexeme::next(text, 3).is_none());
    assert!(CharLexeme::prev(text, 0).is_none());
}

#[test]
fn goto_lines_at_edges() {
    let text = "ab\ncd";
    let mut cursor = StrCursor::new(&text, 4);
    assert_eq!(cursor.goto_next_line(), 5);
    assert_eq!(cursor.goto_prev_line(), 0);
    assert_eq!(cursor.goto_prev_line(), 0);
    let mut cursor = StrCursor::new("", 0);
    assert_eq!(cursor.goto_line_begin(), 0);
    assert_eq!(cursor.goto_next_line(), 0);
    assert!(cursor.is_bol());
}

#[test]
fn multiline_pattern_text() {
    assert!(is_multiline_regex(r"a\nb"));
    assert!(is_multiline_regex(r"\r"));
    assert!(is_multiline_regex(r"x[[:space:]]+"));
    assert!(!is_multiline_regex(r"^\*+ "));
    assert!(!is_multiline_regex(""));
}

#[test]
fn looking_at_spans_lines_for_multiline_pattern() {
    let text = "ab\ncd";
    let cursor = StrCursor::new(&text, 0);
    let across = Regex::new(r"b\nc").unwrap();
    assert_eq!(cursor.looking_at(&across), None);
    let anchored_across = Regex::new(r"ab\nc").unwrap();
    assert_eq!(cursor.looking_at(&anchored_across), Some(Interval::new(0, 4)));
    let line_only = Regex::new(r"ab.*").unwrap();
    assert_eq!(cursor.looking_at(&line_only), Some(Interval::new(0, 2)));
}

#[test]
fn capturing_at_groups() {
    let text = "Some text\n**** headline\n";
    let cursor = StrCursor::new(&text, 10);
    let re = Regex::new(r"(\*+) (\w+)").unwrap();
    let groups = cursor.capturing_at(&re).unwrap();
    assert_eq!(groups.len(), 3);
    assert_eq!(groups[0], Some(Interval::new(0, 13)));
    assert_eq!(groups[1], Some(Interval::new(0, 4)));
    assert_eq!(groups[2], Some(Interval::new(5, 13)));
    let cursor = StrCursor::new(&text, 0);
    assert!(cursor.capturing_at(&re).is_none());
}

#[test]
fn anchored_keeps_only_matches_at_start() {
    assert_eq!(anchored(Some(Interval::new(0, 3))), Some(Interval::new(0, 3)));
    assert_eq!(anchored(Some(Interval::new(1, 3))), None);
    assert_eq!(anchored(None), None);
}

#[test]
fn advance_past_shifts_match() {
    let mut cursor = StrCursor::new("abcdef", 2);
    assert_eq!(cursor.advance_past(None), None);
    assert_eq!(cursor.pos(), 2);
    assert_eq!(cursor.advance_past(Some(Interval::new(1, 3))), Some(Interval::new(3, 5)));
    assert_eq!(cursor.pos(), 5);
}

#[test]
fn re_search_forward_bound_past_end() {
    let mut cursor = StrCursor::new("ab1", 0);
    let re = Regex::new(r"\d").unwrap();
    assert_eq!(cursor.re_search_forward(&re, Some(100)), Some(Interval::new(2, 3)));
    assert_eq!(cursor.pos(), 3);
    assert_eq!(cursor.re_search_forward(&re, None), None);
}

#[test]
fn scan_window_stops_at_line_feed() {
    let cursor = StrCursor::new("ab\ncd", 1);
    assert_eq!(cursor.scan_window_end(false), 2);
    assert_eq!(cursor.scan_window_end(true), 5);
}

#[test]
fn line_end_before_line_start() {
    let text = "a\nb\nc";
    let mut cursor = StrCursor::new(&text, 4);
    assert_eq!(cursor.line_end_position(Some(0)), 3);
    assert_eq!(cursor.line_end_position(Some(-1)), 1);
    assert_eq!(cursor.line_end_position(Some(-7)), 1);
    assert_eq!(cursor.line_end_position(Some(1)), 4);
    assert_eq!(cursor.pos(), 4);
    let mut cursor = StrCursor::new("no newline", 5);
    assert_eq!(cursor.line_end_position(Some(0)), 9);
}

#[test]
fn empty_windows_need_no_char_start() {
    let text = "aЗb";
    let mut cursor = StrCursor::new(&text, 2);
    let re = Regex::new(r"b").unwrap();
    assert_eq!(cursor.re_search_forward(&re, Some(1)), None);
    assert_eq!(cursor.pos(), 2);
    assert_eq!(cursor.skip_chars_forward("З", Some(2)), 0);
    assert_eq!(cursor.pos(), 2);
}

#[test]
fn capturing_agrees_with_looking_at() {
    let text = "** a\n* b";
    let re = Regex::new(r"(\*+) ").unwrap();
    for p in [0, 1, 3, 5, 6] {
        let cursor = StrCursor::new(&text, p);
        let whole = cursor.capturing_at(&re).map(|g| g[0].unwrap());
        assert_eq!(whole, cursor.looking_at(&re));
    }
    let cursor = StrCursor::new(&text, 0);
    assert_eq!(cursor.looking_at(&re), Some(Interval::new(0, 3)));
}
