use text_cursor::cursor::Cursor;
use text_cursor::views::{CursorLines, CursorWords};

#[test]
fn word_scan_keeps_the_delimiter() {
    let mut cursor = Cursor::new("hello world");
    assert_eq!(cursor.next_word(), Some((0, "hello ")));
    assert_eq!(cursor.peek(), Some((5, ' ')));
    assert_eq!(cursor.next_word(), None);
    assert_eq!(cursor.peek(), Some((5, ' ')));
    cursor.skip_whitespace();
    assert_eq!(cursor.peek(), Some((6, 'w')));
    assert_eq!(cursor.next_word(), Some((6, "world")));
    assert_eq!(cursor.peek(), None);
    assert_eq!(cursor.next_word(), None);
}

#[test]
fn word_scan_keeps_a_wide_delimiter_whole() {
    let mut cursor = Cursor::new("ab\u{3000}cd");
    assert_eq!(cursor.next_word(), Some((0, "ab\u{3000}")));
    assert_eq!(cursor.peek(), Some((2, '\u{3000}')));
    cursor.skip_whitespace();
    assert_eq!(cursor.next_word(), Some((5, "cd")));
}

#[test]
fn word_scan_stops_at_each_kind_of_whitespace() {
    let mut cursor = Cursor::new("a\tb\nc\u{a0}d\u{e9}e");
    assert_eq!(cursor.next_word(), Some((0, "a\t")));
    cursor.skip_whitespace();
    assert_eq!(cursor.next_word(), Some((2, "b\n")));
    assert_eq!(cursor.line(), 0);
    cursor.skip_whitespace();
    assert_eq!(cursor.line(), 1);
    assert_eq!(cursor.next_word(), Some((4, "c\u{a0}")));
    cursor.skip_whitespace();
    assert_eq!(cursor.next_word(), Some((7, "d\u{e9}e")));
}

#[test]
fn skip_whitespace_stops_at_text_or_end() {
    let mut cursor = Cursor::new(" \t\n x  ");
    cursor.skip_whitespace();
    assert_eq!(cursor.peek(), Some((4, 'x')));
    assert_eq!(cursor.line(), 1);
    cursor.skip_whitespace();
    assert_eq!(cursor.peek(), Some((4, 'x')));
    cursor.next();
    cursor.skip_whitespace();
    assert_eq!(cursor.peek(), None);
    assert_eq!(cursor.lookback(), Some((6, ' ')));
}

#[test]
fn line_scan_takes_the_newline() {
    let mut cursor = Cursor::new("line1\nline2");
    assert_eq!(cursor.next_line(), Some((0, "line1\n")));
    assert_eq!(cursor.line(), 1);
    assert_eq!(cursor.peek(), Some((6, 'l')));
    assert_eq!(cursor.next_line(), Some((6, "line2")));
    assert_eq!(cursor.line(), 1);
    assert_eq!(cursor.next_line(), None);
}

#[test]
fn line_scan_yields_nothing_on_a_newline() {
    let mut cursor = Cursor::new("a\n\nb");
    assert_eq!(cursor.next_line(), Some((0, "a\n")));
    assert_eq!(cursor.next_line(), None);
    assert_eq!(cursor.peek(), Some((2, '\n')));
    assert_eq!(cursor.line(), 1);
    assert_eq!(cursor.next_line(), None);
}

#[test]
fn words_of_hello_world() {
    let mut cursor = Cursor::new("hello world");
    let mut words = cursor.words();
    assert_eq!(words.next(), Some((0, "hello ")));
    assert_eq!(words.next(), Some((6, "world")));
    assert_eq!(words.next(), None);
    assert_eq!(words.next(), None);
    assert_eq!(cursor.peek(), None);
}

#[test]
fn words_built_from_a_cursor() {
    let mut cursor = Cursor::new("one  two");
    let mut words = CursorWords::<false>::new(&mut cursor);
    assert_eq!(words.next(), Some((0, "one ")));
    assert_eq!(words.next(), Some((5, "two")));
    assert_eq!(words.next(), None);
    let mut cursor = Cursor::new("one\ntwo");
    let mut words = CursorWords::<true>::with_lines(&mut cursor);
    assert_eq!(words.next(), Some((0, 0, "one\n")));
    assert_eq!(words.next(), Some((4, 1, "two")));
    assert_eq!(words.next(), None);
    let mut cursor = Cursor::new("one\ntwo");
    let mut lines = CursorLines::new(&mut cursor);
    assert_eq!(lines.next(), Some((0, "one\n")));
    assert_eq!(lines.next(), Some((1, "two")));
    assert_eq!(lines.next(), None);
}

#[test]
fn words_with_their_lines() {
    let mut cursor = Cursor::new("a b\nc \n\n d");
    let mut words = cursor.words_with_lines();
    assert_eq!(words.next(), Some((0, 0, "a ")));
    assert_eq!(words.next(), Some((2, 0, "b\n")));
    assert_eq!(words.next(), Some((4, 1, "c ")));
    assert_eq!(words.next(), Some((9, 3, "d")));
    assert_eq!(words.next(), None);
    assert_eq!(words.next(), None);
    assert_eq!(cursor.line(), 3);
}

#[test]
fn words_stop_for_good_on_leading_whitespace() {
    let mut cursor = Cursor::new(" a b");
    let mut words = cursor.words();
    assert_eq!(words.next(), None);
    assert_eq!(words.next(), None);
    assert_eq!(cursor.peek(), Some((0, ' ')));
    assert_eq!(cursor.words().collect(), vec![]);
}

#[test]
fn words_collected_then_exhausted() {
    let mut cursor = Cursor::new("the quick\tbrown\u{3000}fox ");
    let all = cursor.words().collect();
    assert_eq!(
        all,
        vec![(0, "the "), (4, "quick\t"), (10, "brown\u{3000}"), (18, "fox ")]
    );
    assert_eq!(cursor.peek(), None);
    let mut words = cursor.words();
    assert_eq!(words.next(), None);
    assert_eq!(words.next(), None);
    let mut cursor = Cursor::new("a\nb c");
    assert_eq!(
        cursor.words_with_lines().collect(),
        vec![(0, 0, "a\n"), (2, 1, "b "), (4, 1, "c")]
    );
    assert_eq!(cursor.words_with_lines().next(), None);
}

#[test]
fn lines_of_two_line_text() {
    let mut cursor = Cursor::new("line1\nline2");
    let mut lines = cursor.lines();
    assert_eq!(lines.next(), Some((0, "line1\n")));
    assert_eq!(lines.cursor.line(), 1);
    assert_eq!(lines.next(), Some((1, "line2")));
    assert_eq!(lines.next(), None);
    assert_eq!(lines.next(), None);
    assert_eq!(cursor.line(), 1);
    assert_eq!(cursor.peek(), None);
}

#[test]
fn lines_collected_then_exhausted() {
    let mut cursor = Cursor::new("a\nbb\n\u{e9}\n");
    assert_eq!(cursor.lines().collect(), vec![(0, "a\n"), (1, "bb\n"), (2, "\u{e9}\n")]);
    assert_eq!(cursor.peek(), None);
    assert_eq!(cursor.line(), 3);
    assert_eq!(cursor.lines().next(), None);
    let mut cursor = Cursor::new("a\n\nb");
    assert_eq!(cursor.lines().collect(), vec![(0, "a\n")]);
    assert_eq!(cursor.lines().next(), None);
    assert_eq!(cursor.peek(), Some((2, '\n')));
}

#[test]
fn scans_start_where_the_cursor_stands() {
    let mut cursor = Cursor::new("ab cd\nef");
    cursor.next();
    assert_eq!(cursor.next_word(), Some((1, "b ")));
    cursor.skip_whitespace();
    cursor.next();
    assert_eq!(cursor.next_line(), Some((4, "d\n")));
    assert_eq!(cursor.prev(), Some((5, '\n')));
    assert_eq!(cursor.line(), 0);
}
