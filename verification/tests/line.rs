//! Lines with hidden regions.
use writ::line::{
    buffer_to_visual_pos, visual_to_buffer_pos, CollapsedDisplayText, HiddenRegion,
};

#[test]
fn test_visual_to_buffer_pos_no_hidden() {
    // Simple case: no hidden regions
    let content_range = 10..30;
    let hidden: Vec<HiddenRegion> = vec![];

    // Visual index 0 -> buffer pos 10
    assert_eq!(visual_to_buffer_pos(0, &content_range, 0, &hidden, 30), 10);
    // Visual index 5 -> buffer pos 15
    assert_eq!(visual_to_buffer_pos(5, &content_range, 0, &hidden, 30), 15);
    // Visual index 20 -> buffer pos 30 (end)
    assert_eq!(visual_to_buffer_pos(20, &content_range, 0, &hidden, 30), 30);
}

#[test]
fn test_visual_to_buffer_pos_with_hidden() {
    // Content: "**bold** text" at buffer 0..13
    // Hidden regions: 0..2 (opening **) and 6..8 (closing **)
    let content_range = 0..13;
    let hidden: Vec<HiddenRegion> = vec![(0, 2, 6, 8)];

    // Visual "bold text" = 9 chars, buffer has 13
    // Visual 0 -> cursor before first char -> buffer 0 (loop doesn't run)
    assert_eq!(visual_to_buffer_pos(0, &content_range, 0, &hidden, 13), 0);
    // Visual 1 -> after 'b' (first visible) -> counts 1 visible, stops at buffer 3
    assert_eq!(visual_to_buffer_pos(1, &content_range, 0, &hidden, 13), 3);
    // Visual 4 -> after "bold" -> buffer 6 (counts 4 visible: b,o,l,d at 2,3,4,5)
    assert_eq!(visual_to_buffer_pos(4, &content_range, 0, &hidden, 13), 6);
    // Visual 5 -> after space -> buffer 9 (skips hidden 6,7, counts space at 8)
    assert_eq!(visual_to_buffer_pos(5, &content_range, 0, &hidden, 13), 9);
}

#[test]
fn test_buffer_to_visual_pos_no_hidden() {
    // Simple case: no hidden regions
    let content_range = 10..30;
    let hidden: Vec<HiddenRegion> = vec![];

    // Buffer pos 10 -> visual 0
    assert_eq!(buffer_to_visual_pos(10, &content_range, 0, &hidden), 0);
    // Buffer pos 15 -> visual 5
    assert_eq!(buffer_to_visual_pos(15, &content_range, 0, &hidden), 5);
    // Buffer pos 30 -> visual 20
    assert_eq!(buffer_to_visual_pos(30, &content_range, 0, &hidden), 20);
}

#[test]
fn test_buffer_to_visual_pos_with_hidden() {
    // Content: "**bold** text" at buffer 0..13
    // Hidden regions: 0..2 (opening **) and 6..8 (closing **)
    let content_range = 0..13;
    let hidden: Vec<HiddenRegion> = vec![(0, 2, 6, 8)];

    // Buffer 0 -> visual 0 (at start, before any visible char)
    assert_eq!(buffer_to_visual_pos(0, &content_range, 0, &hidden), 0);
    // Buffer 2 -> visual 0 (first visible char 'b')
    assert_eq!(buffer_to_visual_pos(2, &content_range, 0, &hidden), 0);
    // Buffer 6 -> visual 4 (after "bold", before hidden **)
    assert_eq!(buffer_to_visual_pos(6, &content_range, 0, &hidden), 4);
    // Buffer 8 -> visual 4 (after hidden **, space char)
    assert_eq!(buffer_to_visual_pos(8, &content_range, 0, &hidden), 4);
    // Buffer 9 -> visual 5 (space counted)
    assert_eq!(buffer_to_visual_pos(9, &content_range, 0, &hidden), 5);
}

#[test]
fn test_buffer_visual_roundtrip() {
    // Test that the functions are inverses (for visible positions)
    let content_range = 0..20;
    let hidden: Vec<HiddenRegion> = vec![(2, 4, 10, 12)]; // hide 2 ranges of 2 chars each

    // For each visual index, converting to buffer and back should give same visual
    for visual in 0..16 {
        // 20 - 4 hidden = 16 visible
        let buffer = visual_to_buffer_pos(visual, &content_range, 0, &hidden, 20);
        let back = buffer_to_visual_pos(buffer, &content_range, 0, &hidden);
        assert_eq!(
            back, visual,
            "roundtrip failed for visual {}: buffer={}, back={}",
            visual, buffer, back
        );
    }
}

#[test]
fn test_collapsed_display_text_ranges() {
    // Simulate a GitHub URL at buffer positions 10..54 (44 chars)
    // displayed as "rust-lang/rust#123" (18 chars) at visual positions 5..23
    let collapsed = CollapsedDisplayText {
        visual_range: 5..23,
        buffer_range: 10..54,
        display_text: "rust-lang/rust#123".to_string(),
        buffer_text: "https://github.com/rust-lang/rust/issues/123".to_string(),
    };

    // Verify the display text is shorter than buffer text
    assert!(collapsed.display_text.len() < collapsed.buffer_text.len());

    // Verify ranges are consistent
    assert_eq!(
        collapsed.visual_range.len(),
        collapsed.display_text.len(),
        "visual_range length should match display_text length"
    );
    assert_eq!(
        collapsed.buffer_range.len(),
        collapsed.buffer_text.len(),
        "buffer_range length should match buffer_text length"
    );
}

#[test]
fn test_collapsed_region_detection_logic() {
    // Test the logic used to find collapsed regions during click handling
    let collapsed_regions = [
        CollapsedDisplayText {
            visual_range: 0..18,
            buffer_range: 0..44,
            display_text: "rust-lang/rust#123".to_string(),
            buffer_text: "https://github.com/rust-lang/rust/issues/123".to_string(),
        },
        CollapsedDisplayText {
            visual_range: 25..43,
            buffer_range: 51..95,
            display_text: "rust-lang/rust#456".to_string(),
            buffer_text: "https://github.com/rust-lang/rust/issues/456".to_string(),
        },
    ];

    // Click at visual index 10 should find first region
    let content_visual_index = 10;
    let found = collapsed_regions.iter().find(|r| {
        content_visual_index >= r.visual_range.start
            && content_visual_index < r.visual_range.end
    });
    assert!(found.is_some());
    assert_eq!(found.unwrap().buffer_range, 0..44);

    // Click at visual index 30 should find second region
    let content_visual_index = 30;
    let found = collapsed_regions.iter().find(|r| {
        content_visual_index >= r.visual_range.start
            && content_visual_index < r.visual_range.end
    });
    assert!(found.is_some());
    assert_eq!(found.unwrap().buffer_range, 51..95);

    // Click at visual index 20 (between regions) should find nothing
    let content_visual_index = 20;
    let found = collapsed_regions.iter().find(|r| {
        content_visual_index >= r.visual_range.start
            && content_visual_index < r.visual_range.end
    });
    assert!(found.is_none());
}
