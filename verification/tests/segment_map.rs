//! Mapping between buffer and display.
use writ::segment_map::{SegmentMap, Special};

#[test]
fn identity_roundtrips() {
    let (display, map) = SegmentMap::identity("hello world", 100);
    assert_eq!(display, "hello world");
    for i in 0..=display.len() {
        let b = map.display_to_buffer(i);
        assert_eq!(b, 100 + i);
        assert_eq!(map.buffer_to_display(b), i);
    }
}

#[test]
fn hidden_emphasis_markers() {
    // "a **b** c" — hide the two `**` at buffer 2..4 and 5..7 (line_start 0).
    let text = "a **b** c";
    let specials = vec![Special::Hidden(2..4), Special::Hidden(5..7)];
    let (display, map) = SegmentMap::build(text, 0, &specials);
    assert_eq!(display, "a b c");
    // Display 'b' is at index 2; its buffer offset is 4.
    assert_eq!(map.display_to_buffer(2), 4);
    assert_eq!(map.buffer_to_display(4), 2);
    // A buffer offset inside the hidden opening `**` (3) collapses to display 2.
    assert_eq!(map.buffer_to_display(3), 2);
    // The space after 'b' in buffer is at 7; display index 3.
    assert_eq!(map.buffer_to_display(7), 3);
    assert_eq!(map.display_to_buffer(3), 7);
}

#[test]
fn collapsed_token_is_shorter() {
    // "see https://github.com/o/r/issues/1 now" collapses the URL to "o/r#1".
    let text = "see LONGURL now";
    let url = 4..11; // "LONGURL"
    let specials = vec![Special::Collapsed {
        buffer: url.clone(),
        display: "o/r#1".to_string(),
    }];
    let (display, map) = SegmentMap::build(text, 0, &specials);
    assert_eq!(display, "see o/r#1 now");
    // Start of the token round-trips exactly.
    assert_eq!(map.buffer_to_display(4), 4);
    assert_eq!(map.display_to_buffer(4), 4);
    // Interior of the collapsed token clamps to its buffer start.
    assert_eq!(map.display_to_buffer(6), 4);
    // Text after the token maps correctly despite the length change.
    assert_eq!(map.buffer_to_display(11), 9); // buffer end of token -> display end
    assert_eq!(map.display_to_buffer(9), 11);
    assert_eq!(map.buffer_to_display(12), 10); // 'n' of "now"
}

#[test]
fn multibyte_verbatim_roundtrips() {
    // Emoji (4 bytes) + accented char (2 bytes); hide a `*` marker in the middle.
    // "é😀*x*" — hide the two `*` around x.
    let text = "é😀 *x*";
    // byte layout: é=0..2, 😀=2..6, ' '=6..7, '*'=7..8, 'x'=8..9, '*'=9..10
    let specials = vec![Special::Hidden(7..8), Special::Hidden(9..10)];
    let (display, map) = SegmentMap::build(text, 0, &specials);
    assert_eq!(display, "é😀 x");
    // 'x' is at buffer 8; in display after "é😀 " (2+4+1 = 7 bytes) => display 7.
    assert_eq!(map.buffer_to_display(8), 7);
    assert_eq!(map.display_to_buffer(7), 8);
    // The emoji start round-trips (buffer 2 -> display 2).
    assert_eq!(map.buffer_to_display(2), 2);
    assert_eq!(map.display_to_buffer(2), 2);
    // End of line.
    assert_eq!(map.buffer_to_display(10), display.len());
}

#[test]
fn line_start_offset_applied() {
    let (_d, map) = SegmentMap::build("abc", 50, &[Special::Hidden(51..52)]);
    // "abc" with 'b' (51..52) hidden => "ac".
    assert_eq!(map.buffer_to_display(50), 0);
    assert_eq!(map.buffer_to_display(52), 1); // 'c'
    assert_eq!(map.display_to_buffer(1), 52);
}

fn collapsed(start: usize, end: usize, display: &str) -> Special {
    Special::Collapsed { buffer: start..end, display: display.to_string() }
}

#[test]
fn the_order_of_specials_is_free() {
    let text = "a **b** LONGURL c";
    let in_order = vec![Special::Hidden(2..4), Special::Hidden(5..7), collapsed(8, 15, "#1")];
    let mixed = vec![collapsed(8, 15, "#1"), Special::Hidden(5..7), Special::Hidden(2..4)];
    let (d1, m1) = SegmentMap::build(text, 0, &in_order);
    let (d2, m2) = SegmentMap::build(text, 0, &mixed);
    assert_eq!(d1, "a b #1 c");
    assert_eq!(d1, d2);
    for i in 0..=text.len() {
        assert_eq!(m1.buffer_to_display(i), m2.buffer_to_display(i));
    }
    for i in 0..=d1.len() {
        assert_eq!(m1.display_to_buffer(i), m2.display_to_buffer(i));
    }
}

#[test]
fn tokens_are_atomic_and_hidden_ranges_collapse() {
    let (display, map) =
        SegmentMap::build("ab **LONG** z", 10, &[
            Special::Hidden(13..15),
            collapsed(15, 19, "xyz"),
            Special::Hidden(19..21),
        ]);
    assert_eq!(display, "ab xyz z");
    for i in 15..19 {
        assert_eq!(map.buffer_to_display(i), 3);
    }
    for i in 3..6 {
        assert_eq!(map.display_to_buffer(i), 15);
    }
    for i in 13..=15 {
        assert_eq!(map.buffer_to_display(i), 3);
    }
    for i in 19..=21 {
        assert_eq!(map.buffer_to_display(i), 6);
    }
    for i in [10, 11, 12, 21, 22] {
        assert_eq!(map.display_to_buffer(map.buffer_to_display(i)), i);
    }
}

#[test]
fn the_start_of_the_display_is_the_start_of_the_line() {
    let (display, map) = SegmentMap::build("**b**", 7, &[Special::Hidden(7..9), Special::Hidden(10..12)]);
    assert_eq!(display, "b");
    assert_eq!(map.buffer_to_display(9), 0);
    assert_eq!(map.display_to_buffer(0), 7);
}

#[test]
fn empty_tokens_are_atomic() {
    let (display, map) = SegmentMap::build("ab LONG z", 10, &[collapsed(13, 17, "")]);
    assert_eq!(display, "ab  z");
    for i in 13..=17 {
        assert_eq!(map.buffer_to_display(i), 3);
    }
}

#[test]
fn display_offsets_round_trip() {
    let specials =
        [collapsed(16, 20, "xyz"), Special::Hidden(10..12), collapsed(13, 15, ""), Special::Hidden(20..21)];
    let (display, map) = SegmentMap::build("**aQQ LONG*", 10, &specials);
    assert_eq!(display, "a xyz");
    assert_eq!(map.display_len(), display.len());
    for d in 0..=display.len() {
        let b = map.display_to_buffer(d);
        assert!((10..=21).contains(&b));
        if d == 3 || d == 4 {
            assert_eq!(b, 16);
            assert_eq!(map.buffer_to_display(b), 2);
        } else {
            assert_eq!(map.buffer_to_display(b), d);
        }
    }
    assert_eq!(map.buffer_to_display(0), 0);
    assert_eq!(map.buffer_to_display(99), 5);
}
