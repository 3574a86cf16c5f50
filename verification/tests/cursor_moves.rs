use text_cursor::cursor::Cursor;
use text_cursor::text::{is_newline, utf8_len};

#[test]
fn test_new_cursor() {
    let cursor = Cursor::new("hello");
    assert_eq!(cursor.peek_char(), Some('h'));
    assert_eq!(cursor.lookback_char(), None);
}

#[test]
fn test_empty_string() {
    let mut cursor = Cursor::new("");
    assert_eq!(cursor.next_char(), None);
    assert_eq!(cursor.prev_char(), None);
    assert_eq!(cursor.peek_char(), None);
    assert_eq!(cursor.lookback_char(), None);
}

#[test]
fn test_advance() {
    let mut cursor = Cursor::new("abc");

    assert_eq!(cursor.next(), Some((0, 'a')));
    assert_eq!(cursor.next(), Some((1, 'b')));
    assert_eq!(cursor.next(), Some((2, 'c')));
    assert_eq!(cursor.next(), None);
}

#[test]
fn test_prev() {
    let mut cursor = Cursor::new("abc");

    cursor.next();
    cursor.next();
    cursor.next();

    assert_eq!(cursor.prev(), Some((2, 'c')));
    assert_eq!(cursor.prev(), Some((1, 'b')));
    assert_eq!(cursor.prev(), Some((0, 'a')));
    assert_eq!(cursor.prev(), None);
}

#[test]
fn test_peek() {
    let mut cursor = Cursor::new("abc");

    assert_eq!(cursor.peek(), Some((0, 'a')));
    cursor.next();
    assert_eq!(cursor.peek(), Some((1, 'b')));
    cursor.next();
    assert_eq!(cursor.peek(), Some((2, 'c')));
    cursor.next();
    assert_eq!(cursor.peek(), None);
}

#[test]
fn test_lookback() {
    let mut cursor = Cursor::new("abc");

    assert_eq!(cursor.lookback(), None);
    cursor.next();
    assert_eq!(cursor.lookback(), Some((0, 'a')));
    cursor.next();
    assert_eq!(cursor.lookback(), Some((1, 'b')));
}

#[test]
fn test_bidirectional_movement() {
    let mut cursor = Cursor::new("hello");

    assert_eq!(cursor.next_char(), Some('h'));
    assert_eq!(cursor.next_char(), Some('e'));
    assert_eq!(cursor.prev_char(), Some('e'));
    assert_eq!(cursor.prev_char(), Some('h'));
    assert_eq!(cursor.next_char(), Some('h'));
}

#[test]
fn test_unicode() {
    let mut cursor = Cursor::new("hello ðŸ‘‹ world");

    for _ in 0..6 {
        cursor.next();
    }

    let mut forward = String::new();
    for _ in 0..4 {
        forward.push(cursor.next_char().unwrap());
    }
    assert_eq!(forward, "ðŸ‘‹");
    assert_eq!(cursor.peek(), Some((16, ' ')));

    let mut backward = String::new();
    for _ in 0..4 {
        backward.push(cursor.prev_char().unwrap());
    }
    assert_eq!(backward, "‹‘Ÿð");
    assert_eq!(cursor.peek(), Some((6, 'ð')));
}

#[test]
fn test_iterator_implementation() {
    let cursor = Cursor::new("abc");
    let collected: Vec<(usize, char)> = cursor.collect();

    assert_eq!(collected, vec![(0, 'a'), (1, 'b'), (2, 'c'),]);
}

#[test]
fn test_mixed_operations() {
    let mut cursor = Cursor::new("test");

    assert_eq!(cursor.next_char(), Some('t'));
    assert_eq!(cursor.peek_char(), Some('e'));
    assert_eq!(cursor.prev_char(), Some('t'));
    assert_eq!(cursor.lookback_char(), None);
    assert_eq!(cursor.next_char(), Some('t'));
    assert_eq!(cursor.next_char(), Some('e'));
    assert_eq!(cursor.lookback_char(), Some('e'));
}

#[test]
fn advance_then_retreat_over_abc() {
    let mut cursor = Cursor::new("abc");
    assert_eq!(cursor.next(), Some((0, 'a')));
    assert_eq!(cursor.next(), Some((1, 'b')));
    assert_eq!(cursor.next(), Some((2, 'c')));
    assert_eq!(cursor.next(), None);
    assert_eq!(cursor.prev(), Some((2, 'c')));
    assert_eq!(cursor.prev(), Some((1, 'b')));
    assert_eq!(cursor.prev(), Some((0, 'a')));
    assert_eq!(cursor.prev(), None);
}

#[test]
fn empty_text_yields_nothing() {
    let mut cursor = Cursor::new("");
    assert_eq!(cursor.next(), None);
    assert_eq!(cursor.prev(), None);
    assert_eq!(cursor.peek(), None);
    assert_eq!(cursor.lookback(), None);
    assert_eq!(cursor.line(), 0);
    assert_eq!(cursor.next_word(), None);
    assert_eq!(cursor.next_line(), None);
    assert_eq!(cursor.collect(), vec![]);
}

#[test]
fn emoji_comes_back_whole() {
    let mut cursor = Cursor::new("hello \u{1F44B} world");
    for _ in 0..6 {
        cursor.next();
    }
    assert_eq!(cursor.next(), Some((6, '\u{1F44B}')));
    assert_eq!(cursor.peek(), Some((10, ' ')));
    assert_eq!(cursor.lookback(), Some((6, '\u{1F44B}')));
    assert_eq!(cursor.prev(), Some((6, '\u{1F44B}')));
    assert_eq!(cursor.peek(), Some((6, '\u{1F44B}')));
    assert_eq!(cursor.lookback(), Some((5, ' ')));
}

#[test]
fn offsets_follow_character_widths() {
    let text = "a\u{e9}\u{20ac}\u{1F600}z";
    let cursor = Cursor::new(text);
    assert_eq!(
        cursor.collect(),
        vec![(0, 'a'), (1, '\u{e9}'), (3, '\u{20ac}'), (6, '\u{1F600}'), (10, 'z')]
    );
}

#[test]
fn round_trip_returns_to_start() {
    let text = "x\u{e9}\n\u{20ac}\u{1F600}\n\nend";
    let mut cursor = Cursor::new(text);
    let mut forward = Vec::new();
    while let Some(item) = cursor.next() {
        assert!(text.is_char_boundary(item.0));
        forward.push(item);
    }
    assert_eq!(forward.len(), text.chars().count());
    assert_eq!(cursor.line(), 3);
    let mut backward = Vec::new();
    while let Some(item) = cursor.prev() {
        assert!(text.is_char_boundary(item.0));
        backward.push(item);
    }
    backward.reverse();
    assert_eq!(forward, backward);
    assert_eq!(cursor.peek(), Some((0, 'x')));
    assert_eq!(cursor.lookback(), None);
    assert_eq!(cursor.line(), 0);
}

#[test]
fn line_counts_newlines_behind() {
    let text = "a\nb\n\nc";
    let mut cursor = Cursor::new(text);
    let mut seen = 0;
    assert_eq!(cursor.line(), 0);
    while let Some((offset, c)) = cursor.next() {
        if c == '\n' {
            seen += 1;
        }
        assert_eq!(cursor.line(), seen);
        assert_eq!(cursor.line(), text[..offset + c.len_utf8()].matches('\n').count());
    }
    assert_eq!(cursor.line(), 3);
    assert_eq!(cursor.prev(), Some((5, 'c')));
    assert_eq!(cursor.line(), 3);
    assert_eq!(cursor.prev(), Some((4, '\n')));
    assert_eq!(cursor.line(), 2);
    assert_eq!(cursor.prev(), Some((3, '\n')));
    assert_eq!(cursor.line(), 1);
    assert_eq!(cursor.prev(), Some((2, 'b')));
    assert_eq!(cursor.line(), 1);
    assert_eq!(cursor.prev(), Some((1, '\n')));
    assert_eq!(cursor.line(), 0);
}

#[test]
fn peeks_repeat_and_agree_with_moves() {
    let mut cursor = Cursor::new("\u{1F600}b");
    cursor.next();
    for _ in 0..3 {
        assert_eq!(cursor.peek(), Some((4, 'b')));
        assert_eq!(cursor.lookback(), Some((0, '\u{1F600}')));
        assert_eq!(cursor.peek_char(), Some('b'));
        assert_eq!(cursor.lookback_char(), Some('\u{1F600}'));
    }
    let ahead = cursor.peek();
    assert_eq!(cursor.next(), ahead);
    let behind = cursor.lookback();
    assert_eq!(cursor.prev(), behind);
    let behind = cursor.lookback();
    assert_eq!(cursor.prev(), behind);
    assert_eq!(cursor.lookback(), None);
}

#[test]
fn clone_moves_on_its_own() {
    let mut cursor = Cursor::new("ab");
    cursor.next();
    let mut other = cursor.clone();
    assert_eq!(other.next(), Some((1, 'b')));
    assert_eq!(cursor.peek(), Some((1, 'b')));
}

#[test]
fn widths_of_encoded_characters() {
    assert_eq!(utf8_len('a'), 1);
    assert_eq!(utf8_len('\u{7f}'), 1);
    assert_eq!(utf8_len('\u{80}'), 2);
    assert_eq!(utf8_len('\u{7ff}'), 2);
    assert_eq!(utf8_len('\u{800}'), 3);
    assert_eq!(utf8_len('\u{ffff}'), 3);
    assert_eq!(utf8_len('\u{10000}'), 4);
    assert_eq!(utf8_len('\u{10ffff}'), 4);
    for c in ['a', '\u{e9}', '\u{20ac}', '\u{1F600}'] {
        assert_eq!(utf8_len(c), c.len_utf8());
    }
}

#[test]
fn only_line_feed_ends_a_line() {
    assert!(is_newline('\n'));
    assert!(!is_newline('\r'));
    assert!(!is_newline(' '));
    assert!(!is_newline('\u{2028}'));
}
