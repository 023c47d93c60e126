//! Lines as the editor shows them.
use ropey::Rope;
use std::ops::Range;
use writ::inline::{extract_all_inline_styles, StyledRegion, TextStyle};
use writ::keys::{Key, KeyPress, Modifiers, NamedKey, PhysicalKey};
use writ::line::{
    apply_background_to_runs, ClickInfo, ClickTarget, CollapsedDisplayText, EditorAction,
    ImageSource, Line, LineColor, SpacerKind, TextRun,
};
use writ::marker::{
    collect_node_infos, markers_at_from_infos, parse_continuation, ContinuationCache, LineMarkers,
    MarkerKind,
};
use writ::parser::MarkdownParser;
use writ::paste::{normalize, transform_paste, PasteContext};
use writ::segment_map::{SegmentMap, Special};
use writ::syntax::{InputEdit, Point};
use writ::text_input::{apply_key, TextField};

fn first_line(text: &str) -> (Rope, LineMarkers, Vec<StyledRegion>) {
    let rope = Rope::from_str(text);
    let tree = MarkdownParser::default().parse_rope(&rope, None).unwrap();
    let parsed = collect_node_infos(tree.block_tree(), &rope);
    let end = text.find('\n').unwrap_or(text.len());
    let line = LineMarkers {
        range: 0..end,
        line_number: 0,
        markers: markers_at_from_infos(&parsed.nodes, &rope, 0, end),
        in_checked_task: false,
        in_code_block: false,
    };
    let styles = extract_all_inline_styles(&tree, &rope);
    (rope, line, styles)
}

fn line_at(text: &str, cursor: usize, selection: Option<Range<usize>>) -> Line {
    let (rope, line, styles) = first_line(text);
    Line::new(
        line,
        rope,
        cursor,
        styles,
        selection,
        Vec::new(),
        Some("/docs".to_string()),
        Vec::new(),
        None,
        false,
        Vec::new(),
        false,
    )
}

const CLICK: ClickInfo = ClickInfo { follow: false, shift: false, click_count: 1 };

#[test]
fn markers_hide_off_the_cursor() {
    let away = line_at("say **bold** words\nx", 19, None);
    let shown = away.build_styled_content();
    assert_eq!(shown.text, "say bold words");
    assert!(shown.runs.iter().any(|r| r.bold && r.len == 4));
    let inside = line_at("say **bold** words\nx", 6, None);
    assert_eq!(inside.build_styled_content().text, "say **bold** words");
}

#[test]
fn headings_show_their_hashes_on_the_line() {
    assert_eq!(line_at("# Title\nx", 8, None).build_styled_content().text, "Title");
    assert_eq!(line_at("# Title\nx", 3, None).build_styled_content().text, "# Title");
    assert_eq!(line_at("# Title\nx", 8, None).display_heading_level(), Some(1));
}

#[test]
fn cursor_and_selection_in_the_display() {
    let line = line_at("**bold** x", 9, Some(3..6));
    assert!(line.cursor_on_line() && line.selection_on_line());
    let shown = line.shown();
    assert_eq!(shown.text, "bold x");
    assert_eq!(shown.cursor, Some(5));
    let selected: usize = shown
        .runs
        .iter()
        .filter(|r| r.background_color == Some(LineColor::Selection))
        .map(|r| r.len)
        .sum();
    assert_eq!(selected, 3);
}

#[test]
fn backgrounds_split_runs() {
    let run = TextRun {
        len: 6,
        code_font: false,
        bold: false,
        italic: false,
        color: LineColor::Text,
        background_color: None,
        underline: false,
        strikethrough: false,
    };
    let runs = apply_background_to_runs(vec![run], &[2..4], LineColor::Selection);
    let lens: Vec<usize> = runs.iter().map(|r| r.len).collect();
    assert_eq!(lens, vec![2, 2, 2]);
    assert_eq!(runs[1].background_color, Some(LineColor::Selection));
    assert_eq!(runs[2].background_color, None);
}

#[test]
fn lists_and_quotes_have_spacers() {
    let line = line_at("> - item\nx", 9, None);
    let spacers = line.spacers();
    assert_eq!(spacers.len(), 2);
    assert_eq!(spacers[0].kind, SpacerKind::Quote);
    assert!(matches!(spacers[1].kind, SpacerKind::Label(_)));
    assert_eq!(spacers[1].marker_start, 2);
}

#[test]
fn rules_and_images_stand_for_their_line() {
    assert!(line_at("---\nx", 4, None).is_rule());
    assert!(!line_at("---\nx", 1, None).is_rule());
    let image = line_at("![alt](pic.png)\n\nx", 17, None);
    assert!(image.is_image_only());
    assert_eq!(image.standalone_image_url(), Some("pic.png".to_string()));
    assert_eq!(
        image.resolve_image_source("pic.png", false),
        ImageSource::Relative { base: "/docs".to_string(), path: "pic.png".to_string() }
    );
    assert_eq!(
        image.resolve_image_source("/a.png", true),
        ImageSource::File("/a.png".to_string())
    );
    assert_eq!(
        image.resolve_image_source("https://x.y/a.png", false),
        ImageSource::Url("https://x.y/a.png".to_string())
    );
    assert_eq!(
        image.image_action("u", ClickInfo { follow: true, ..CLICK }),
        Some(EditorAction::OpenLink { url: "u".to_string() })
    );
}

#[test]
fn clicks_reach_the_buffer() {
    let line = line_at("[text](http://x.y) end\nz", 23, None);
    let shown = line.build_styled_content();
    assert_eq!(shown.text, "text end");
    assert_eq!(line.click_target(2, &shown.collapsed), ClickTarget::Offset(3));
    assert_eq!(
        line.click_action(3, ClickInfo { follow: true, ..CLICK }),
        Some(EditorAction::OpenLink { url: "http://x.y".to_string() })
    );
    assert_eq!(
        line.click_action(20, CLICK),
        Some(EditorAction::Click { offset: 20, shift: false, click_count: 1 })
    );
    assert_eq!(line.drag_action(5), Some(EditorAction::Drag { offset: 5 }));
    assert!(line.hover(2).over_link);
    assert!(!line.hover(6).over_link);
}

#[test]
fn checkboxes_toggle() {
    let line = line_at("- [ ] task\nx", 11, None);
    let shown = line.build_styled_content();
    assert_eq!(line.click_target(1, &shown.collapsed), ClickTarget::Checkbox);
    assert_eq!(
        line.checkbox_action(),
        Some(EditorAction::ToggleCheckbox { line_number: 0 })
    );
}

#[test]
fn continuations_are_parsed_and_remembered() {
    let text = "> - ";
    let rope = Rope::from_str(text);
    let kinds: Vec<MarkerKind> =
        parse_continuation(&rope, 0, 4).into_iter().map(|m| m.kind).collect();
    assert!(kinds.contains(&MarkerKind::BlockQuote));
    let mut cache = ContinuationCache::new();
    let again: Vec<MarkerKind> =
        cache.parse_continuation(&rope, 0, 4).into_iter().map(|m| m.kind).collect();
    assert_eq!(kinds, again);
    assert_eq!(cache.parse_continuation(&rope, 0, 4), parse_continuation(&rope, 0, 4));
}

#[test]
fn styles_merge() {
    let both = TextStyle::bold().merge(&TextStyle::heading(2));
    assert!(both.bold && both.heading_level == 2 && !both.italic);
    assert_eq!(TextStyle::code().merge(&TextStyle::code()), TextStyle::code());
    assert_eq!(
        TextStyle::italic().merge(&TextStyle::strikethrough()),
        TextStyle::strikethrough().merge(&TextStyle::italic())
    );
}

#[test]
fn parsing_again_after_an_edit_is_parsing_afresh() {
    let mut parser = MarkdownParser::default();
    let mut tree = parser.parse(b"# a\n\ntext\n", None).unwrap();
    tree.edit(&InputEdit {
        start_byte: 2,
        old_end_byte: 3,
        new_end_byte: 4,
        start_position: Point { row: 0, column: 2 },
        old_end_position: Point { row: 0, column: 3 },
        new_end_position: Point { row: 0, column: 4 },
    });
    let next = parser.parse(b"# bc\n\ntext\n", Some(&tree)).unwrap();
    let fresh = MarkdownParser::default().parse(b"# bc\n\ntext\n", None).unwrap();
    assert_eq!(next.block_tree(), fresh.block_tree());
    assert_eq!(next.inline_trees(), fresh.inline_trees());
}

#[test]
fn paste_context_of_a_line() {
    let text = "> quoted\n\n```\ncode\n```\n";
    let rope = Rope::from_str(text);
    let tree = MarkdownParser::default().parse_rope(&rope, None).unwrap();
    let parsed = collect_node_infos(tree.block_tree(), &rope);
    let (_, quoted, _) = first_line(text);
    let cx = PasteContext::from_buffer(&parsed.code_blocks, &quoted, 3);
    assert!(!cx.in_code_block);
    assert_eq!(cx.blockquote_prefix, "> ");
    let cx = PasteContext::from_buffer(&parsed.code_blocks, &quoted, 15);
    assert!(cx.in_code_block);
}

#[test]
fn normalizing_twice_changes_nothing() {
    let once = normalize("\u{201C}a\u{201D}\r\nb\rc");
    assert_eq!(once, "\"a\"\nb\nc");
    assert_eq!(normalize(&once), once);
    let code = PasteContext { in_code_block: true, blockquote_prefix: "> ".to_string() };
    assert_eq!(transform_paste("a\nb", &code), "a\nb");
}

#[test]
fn display_positions_keep_their_order() {
    let specials = [
        Special::Hidden(0..2),
        Special::Collapsed { buffer: 4..9, display: "é".to_string() },
    ];
    let (display, map) = SegmentMap::build("**ab12345 z", 0, &specials);
    assert_eq!(display, "abé z");
    assert_eq!(map.display_len(), display.len());
    for i in 0..11 {
        assert!(map.buffer_to_display(i) <= map.buffer_to_display(i + 1));
    }
    for i in 0..display.len() {
        assert!(map.display_to_buffer(i) <= map.display_to_buffer(i + 1));
    }
    assert_eq!(map.buffer_range_to_display(2..4), 0..2);
}

#[test]
fn field_keys() {
    let press = |k: NamedKey| KeyPress {
        logical_key: Key::Named(k),
        physical_key: PhysicalKey::Other,
        text: None,
    };
    let types = |s: &str| KeyPress {
        logical_key: Key::Character(s.to_string()),
        physical_key: PhysicalKey::Other,
        text: Some(s.to_string()),
    };
    let none = Modifiers { shift: false, alt: false, control: false, super_key: false };
    let ctrl = Modifiers { control: true, ..none };
    let mut f = TextField::new();
    assert!(apply_key(&mut f, &types("é"), none));
    assert!(apply_key(&mut f, &types("x"), none));
    assert_eq!((f.text(), f.caret()), ("éx", 3));
    assert!(apply_key(&mut f, &press(NamedKey::ArrowLeft), none));
    assert!(apply_key(&mut f, &press(NamedKey::Backspace), none));
    assert_eq!(f.text(), "x");
    assert!(!apply_key(&mut f, &types("q"), ctrl));
    assert!(apply_key(&mut f, &types("a"), ctrl));
    assert_eq!(f.selected_range(), Some(0..1));
    assert!(!apply_key(&mut f, &press(NamedKey::Enter), none));
}

#[test]
fn typing_is_undone_by_backspace() {
    let mut f = TextField::with_text("ab");
    f.move_left(false);
    f.insert("😀");
    f.backspace();
    assert_eq!((f.text(), f.caret()), ("ab", 1));
}

#[test]
fn prefixes_and_rules() {
    let run = |len: usize| TextRun { len, ..line_at("x", 9, None).build_styled_content().runs[0] };
    let line = line_at("text\nx", 5, None).with_prefix("+ ".to_string(), vec![run(2)]);
    assert_eq!(line.shown().text, "+ text");
    assert_eq!(line.hovered_ref_visual(), None);
    let rule = line_at("---\nx", 4, None);
    assert!(matches!(
        rule.rule_action(9, CLICK),
        Some(EditorAction::Click { offset: 3, shift: false, click_count: 1 })
    ));
    let mut field = TextField::with_text("old");
    field.set_text("new text");
    assert_eq!(field.text(), "new text");
    assert_eq!(field.caret(), 8);
}

#[test]
fn places_in_a_shortened_url() {
    let url = "https://github.com/o/r/issues/7";
    let collapsed = CollapsedDisplayText {
        visual_range: 4..9,
        buffer_range: 4..4 + url.len(),
        display_text: "o/r#7".to_string(),
        buffer_text: url.to_string(),
    };
    assert_eq!(collapsed.map_x_to_buffer_offset(Some(8)), 12);
    assert_eq!(collapsed.map_x_to_buffer_offset(None), 4);
}

#[test]
fn headings_are_larger_and_code_is_smaller() {
    for (text, size) in [
        ("# a", 200),
        ("## a", 175),
        ("### a", 150),
        ("#### a", 125),
        ("##### a", 110),
        ("###### a", 100),
        ("a", 100),
        ("- a", 100),
        // The space behind the marks is still to come.
        ("#", 100),
        ("> ## a", 175),
        ("```rust\nx\n```", 90),
    ] {
        assert_eq!(line_at(text, 0, None).text_size(), size, "{text}");
    }
}
