//! What the window shows of the document.
use ropey::Rope;
use writ::marker::MarkerKind;
use writ::outline::HeadingInfo;
use writ::theme::ThemeColor;
use writ::viewport::{
    build_status_info, chevron_look, detection_range, fold_anchors, heading_at, overlay_shown,
    tinted_matches, window_title, ChevronLook, FoldAnchor, Overlay,
};

fn heading(line: usize, level: u8) -> HeadingInfo {
    HeadingInfo { line, level, text: String::new(), byte_offset: 0 }
}

fn anchor(line: usize, byte_offset: usize) -> FoldAnchor {
    FoldAnchor { line, byte_offset, foldable: true }
}

#[test]
fn title_marks_unsaved_changes() {
    assert_eq!(window_title(Some("notes.md"), false), "notes.md");
    assert_eq!(window_title(Some("notes.md"), true), "● notes.md");
    assert_eq!(window_title(None, false), "untitled");
    assert_eq!(window_title(None, true), "● untitled");
}

#[test]
fn detection_covers_view_and_cursor() {
    assert_eq!(detection_range(None, 5, 90), 0..90);
    assert_eq!(detection_range(Some((300, 340)), 320, 2000), 100..540);
    // Clamped to the document.
    assert_eq!(detection_range(Some((100, 140)), 120, 200), 0..200);
    // The cursor is far above or below the viewport.
    assert_eq!(detection_range(Some((900, 940)), 10, 2000), 10..1140);
    assert_eq!(detection_range(Some((300, 340)), 1500, 2000), 100..1501);
}

#[test]
fn nearest_heading_is_at_or_above() {
    let headings = [heading(2, 1), heading(7, 3)];
    assert_eq!(heading_at(&headings, 1), None);
    assert_eq!(heading_at(&headings, 2), Some(1));
    assert_eq!(heading_at(&headings, 6), Some(1));
    assert_eq!(heading_at(&headings, 9), Some(3));
}

#[test]
fn status_info_counts_grapheme_clusters() {
    // A family emoji of three people, and an e with a combining accent.
    let text = "# T\nab👨‍👩‍👧e\u{301}x\n";
    let rope = Rope::from_str(text);
    let x = text.find('x').unwrap();
    let info = build_status_info(&rope, x, vec![MarkerKind::BlockQuote], &[heading(0, 1)], (3, 9));
    assert_eq!(info.cursor_line, 2);
    assert_eq!(info.cursor_col, 5);
    assert_eq!(info.total_lines, 3);
    assert_eq!(info.heading_level, Some(1));
    assert_eq!((info.first_visible, info.last_visible), (3, 8));
    assert_eq!(info.context, vec![MarkerKind::BlockQuote]);
}

#[test]
fn status_info_at_line_starts() {
    // After each kind of line break.
    let text = "a\r\nb\u{85}c\u{2028}d\u{2029}e";
    let rope = Rope::from_str(text);
    for (line, c) in ['a', 'b', 'c', 'd', 'e'].into_iter().enumerate() {
        let info = build_status_info(&rope, text.find(c).unwrap(), vec![], &[], (0, 0));
        assert_eq!((info.cursor_line, info.cursor_col), (line + 1, 1));
        assert_eq!(info.last_visible, 0);
    }
}

#[test]
fn visible_matches_are_tinted_but_for_the_active_one() {
    let matches = [(0, 0), (4, 5), (5, 5), (8, 9), (9, 9)];
    assert_eq!(tinted_matches(&matches, None, 5, 9), vec![1, 2, 3]);
    assert_eq!(tinted_matches(&matches, Some(2), 5, 9), vec![1, 3]);
}

#[test]
fn anchors_in_folds_show_no_chevron() {
    let closed = FoldAnchor { foldable: false, ..anchor(3, 30) };
    let headings = [anchor(0, 0), anchor(2, 20), closed, anchor(5, 50)];
    let items = [anchor(4, 40), anchor(9, 90)];
    let shown = fold_anchors(&headings, &items, 1, 9, &[5..8]);
    assert_eq!(shown, vec![anchor(2, 20), anchor(4, 40)]);
}

#[test]
fn expanded_chevrons_show_on_hover() {
    let look = |points_right, color| Some(ChevronLook { points_right, color });
    assert_eq!(chevron_look(false, false), None);
    assert_eq!(chevron_look(false, true), look(false, ThemeColor::Foreground));
    assert_eq!(chevron_look(true, false), look(true, ThemeColor::Comment));
    assert_eq!(chevron_look(true, true), look(true, ThemeColor::Foreground));
}

#[test]
fn dropdown_hides_the_popover() {
    assert_eq!(overlay_shown(2, true), Overlay::Autocomplete);
    assert_eq!(overlay_shown(0, true), Overlay::Popover);
    assert_eq!(overlay_shown(0, false), Overlay::Nothing);
}
