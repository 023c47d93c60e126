//! The one-line text field.
use writ::text_input::TextField;

#[test]
fn insert_into_empty_advances_caret() {
    let mut f = TextField::new();
    f.insert("hello");
    assert_eq!(f.text(), "hello");
    assert_eq!(f.caret(), 5);
}

#[test]
fn insert_at_caret_splits() {
    let mut f = TextField::with_text("hd");
    f.move_left(false); // caret before 'd'
    f.insert("ello worl");
    assert_eq!(f.text(), "hello world");
    assert_eq!(f.caret(), "hello worl".len());
}

#[test]
fn backspace_at_zero_is_noop() {
    let mut f = TextField::with_text("abc");
    f.home(false);
    f.backspace();
    assert_eq!(f.text(), "abc");
    assert_eq!(f.caret(), 0);
}

#[test]
fn backspace_removes_previous_char() {
    let mut f = TextField::with_text("abc");
    f.backspace();
    assert_eq!(f.text(), "ab");
    assert_eq!(f.caret(), 2);
}

#[test]
fn delete_forward_at_end_is_noop() {
    let mut f = TextField::with_text("abc");
    f.delete_forward();
    assert_eq!(f.text(), "abc");
    assert_eq!(f.caret(), 3);
}

#[test]
fn delete_forward_removes_next_char() {
    let mut f = TextField::with_text("abc");
    f.home(false);
    f.delete_forward();
    assert_eq!(f.text(), "bc");
    assert_eq!(f.caret(), 0);
}

#[test]
fn move_clamps_at_bounds_and_boundaries() {
    let mut f = TextField::with_text("ab");
    f.home(false);
    f.move_left(false); // clamp at 0
    assert_eq!(f.caret(), 0);
    f.end(false);
    f.move_right(false); // clamp at len
    assert_eq!(f.caret(), 2);
    assert!(f.text().is_char_boundary(f.caret()));
}

#[test]
fn home_end_with_extend_build_selection() {
    let mut f = TextField::with_text("hello");
    f.home(true);
    assert_eq!(f.selected_range(), Some(0..5));
    f.end(true);
    assert_eq!(f.selected_range(), None); // collapsed back onto caret==anchor
}

#[test]
fn home_end_plain_move() {
    let mut f = TextField::with_text("hello");
    f.home(false);
    assert_eq!(f.caret(), 0);
    assert_eq!(f.selected_range(), None);
    f.end(false);
    assert_eq!(f.caret(), 5);
}

#[test]
fn select_all_then_insert_replaces() {
    let mut f = TextField::with_text("hello world");
    f.select_all();
    assert_eq!(f.selected_range(), Some(0..11));
    f.insert("x");
    assert_eq!(f.text(), "x");
    assert_eq!(f.caret(), 1);
    assert_eq!(f.selected_range(), None);
}

#[test]
fn delete_selection_returns_whether_deleted() {
    let mut f = TextField::with_text("abcdef");
    f.home(false);
    f.move_right(true);
    f.move_right(true);
    f.move_right(true);
    assert_eq!(f.selected_range(), Some(0..3));
    assert!(f.delete_selection());
    assert_eq!(f.text(), "def");
    assert_eq!(f.caret(), 0);
    // Collapsed now: no-op, returns false.
    assert!(!f.delete_selection());
}

#[test]
fn multibyte_movement_steps_whole_chars() {
    // "áé😀": á and é are 2 bytes each, 😀 is 4 bytes.
    let mut f = TextField::with_text("áé😀");
    f.home(false);
    assert!(f.text().is_char_boundary(f.caret()));

    f.move_right(false);
    assert!(f.text().is_char_boundary(f.caret()));
    assert_eq!(f.caret(), 2); // past á

    f.move_right(false);
    assert!(f.text().is_char_boundary(f.caret()));
    assert_eq!(f.caret(), 4); // past é

    f.move_right(false);
    assert!(f.text().is_char_boundary(f.caret()));
    assert_eq!(f.caret(), 8); // past 😀

    f.move_left(false);
    assert!(f.text().is_char_boundary(f.caret()));
    assert_eq!(f.caret(), 4);
}

#[test]
fn backspace_removes_whole_multibyte_char() {
    let mut f = TextField::with_text("áé😀");
    f.backspace(); // remove 😀 (4 bytes)
    assert_eq!(f.text(), "áé");
    assert_eq!(f.caret(), 4);
    assert!(f.text().is_char_boundary(f.caret()));
    f.backspace(); // remove é (2 bytes)
    assert_eq!(f.text(), "á");
    assert_eq!(f.caret(), 2);
    assert!(f.text().is_char_boundary(f.caret()));
}

#[test]
fn shift_extend_then_collapse() {
    let mut f = TextField::with_text("hello");
    f.home(false);
    f.move_right(true);
    f.move_right(true);
    assert_eq!(f.selected_range(), Some(0..2)); // "he"
    // Non-extend move collapses to the selection edge (right → end).
    f.move_right(false);
    assert_eq!(f.selected_range(), None);
    assert_eq!(f.caret(), 2);
}

#[test]
fn non_extend_left_collapses_to_start() {
    let mut f = TextField::with_text("hello");
    f.home(false);
    f.move_right(true);
    f.move_right(true);
    f.move_right(true);
    assert_eq!(f.selected_range(), Some(0..3));
    f.move_left(false); // collapse to start, not one-left of caret
    assert_eq!(f.selected_range(), None);
    assert_eq!(f.caret(), 0);
}

#[test]
fn the_selection_cuts_between_characters() {
    let mut f = TextField::with_text("a\u{e9}\u{1f600}");
    f.move_left(true);
    f.move_left(true);
    let range = f.selected_range().unwrap();
    assert_eq!(range, 1..7);
    assert_eq!(&f.text()[range], "\u{e9}\u{1f600}");
}
