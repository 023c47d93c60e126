//! Styled lines.
use ropey::Rope;
use std::ops::Range;
use std::str::FromStr;
use writ::inline::{extract_all_inline_styles, styles_in_range, StyledRegion, TextStyle};
use writ::marker::{
    collect_node_infos, is_line_in_checked_task, is_line_in_code_block, markers_at_from_infos,
    LineMarkers, ParsedNodes,
};
use writ::parser::{MarkdownParser, MarkdownTree};
use writ::render::{build_line_render, RenderSnapshot, SnapshotLine};
use writ::theme::ThemeColor;

/// A parsed document.
struct Buffer {
    rope: Rope,
    tree: MarkdownTree,
    parsed: ParsedNodes,
}

impl FromStr for Buffer {
    type Err = ();

    fn from_str(text: &str) -> Result<Self, ()> {
        let rope = Rope::from_str(text);
        let tree = MarkdownParser::default().parse_rope(&rope, None).ok_or(())?;
        let parsed = collect_node_infos(tree.block_tree(), &rope);
        Ok(Buffer { rope, tree, parsed })
    }
}

impl Buffer {
    fn line(&self, line_number: usize) -> LineMarkers {
        let start = self.rope.line_to_byte(line_number);
        let text = self.rope.line(line_number).to_string();
        let end = start + text.trim_end_matches('\n').len();
        let nodes = &self.parsed.nodes;
        LineMarkers {
            range: start..end,
            line_number,
            markers: markers_at_from_infos(nodes, &self.rope, start, end),
            in_checked_task: is_line_in_checked_task(nodes, start),
            in_code_block: is_line_in_code_block(nodes, start),
        }
    }

    fn render_snapshot(&self) -> RenderSnapshot {
        let line = |i: usize| SnapshotLine { markers: self.line(i), code_highlights: Vec::new() };
        RenderSnapshot {
            rope: self.rope.clone(),
            lines: (0..self.rope.len_lines()).map(line).collect(),
        }
    }

    fn inline_styles_by_line(&self) -> Vec<Vec<StyledRegion>> {
        let styles = extract_all_inline_styles(&self.tree, &self.rope);
        (0..self.rope.len_lines())
            .map(|i| {
                let found = styles_in_range(&styles, &self.line(i).range);
                found.into_iter().cloned().collect()
            })
            .collect()
    }
}

fn link_region(range: Range<usize>) -> StyledRegion {
    StyledRegion {
        full_range: range.clone(),
        content_range: range,
        style: TextStyle::default(),
        link_url: Some("https://github.com/o/r/issues/1".to_string()),
        is_image: false,
        checkbox: None,
        display_text: None,
    }
}

/// An extra region carrying `link_url` (a validated GitHub ref) colors its span
/// as an underlined link — the render half of the GitHub coloring feature.
#[test]
fn extra_link_region_styles_underlined_link() {
    let buffer: Buffer = "See #1 today\n".parse().unwrap();
    let snapshot = buffer.render_snapshot();
    // "#1" is bytes 4..6. Cursor off the line so nothing is revealed.
    let extra = [link_region(4..6)];
    let lr = build_line_render(&snapshot, 0, usize::MAX, &[], &extra);
    let link_run = lr
        .runs
        .iter()
        .find(|r| r.underline)
        .expect("a link run should exist");
    assert_eq!(link_run.color, ThemeColor::Cyan);
    // The colored display range corresponds to "#1".
    let ds = lr.map.buffer_to_display(4);
    let de = lr.map.buffer_to_display(6);
    assert_eq!(link_run.range, ds..de);
}

/// Without any extra regions the same line has no link run (unvalidated refs
/// stay plain text).
#[test]
fn no_extra_regions_no_link() {
    let buffer: Buffer = "See #1 today\n".parse().unwrap();
    let snapshot = buffer.render_snapshot();
    let lr = build_line_render(&snapshot, 0, usize::MAX, &[], &[]);
    assert!(!lr.runs.iter().any(|r| r.underline));
}

/// A completed task dims its content (muted, spanning the line) while its checkbox
/// stays green; an active task's content is not dimmed.
#[test]
fn completed_task_dims_content() {
    let comment = ThemeColor::Comment;
    let buf: Buffer = "- [x] done\n- [ ] todo\n".parse().unwrap();
    let snap = buf.render_snapshot();

    let done = build_line_render(&snap, 0, usize::MAX, &[], &[]);
    assert!(
        done.runs
            .iter()
            .any(|r| r.color == comment && r.range.len() >= done.text.len()),
        "completed task content is dimmed across the line"
    );
    assert!(
        done.runs
            .iter()
            .any(|r| r.color == ThemeColor::Green),
        "the checkbox itself stays green"
    );

    let todo = build_line_render(&snap, 1, usize::MAX, &[], &[]);
    assert!(
        !todo
            .runs
            .iter()
            .any(|r| r.color == comment && r.range.len() >= todo.text.len()),
        "active task content is not dimmed (only its empty box is muted)"
    );
}

/// Inline code spans expose their display ranges (for the background chip); a line
/// with no inline code exposes none.
#[test]
fn inline_code_exposes_code_ranges() {
    let buf: Buffer = "call `foo()` now\nplain line\n".parse().unwrap();
    let snap = buf.render_snapshot();
    let styles = buf.inline_styles_by_line();

    let coded = build_line_render(&snap, 0, usize::MAX, &styles[0], &[]);
    assert_eq!(coded.code_ranges.len(), 1, "one code span");
    // The chip covers the visible `foo()` (backticks hidden off-cursor).
    let (s, e) = (coded.code_ranges[0].start, coded.code_ranges[0].end);
    assert_eq!(&coded.text[s..e], "foo()");

    let plain = build_line_render(&snap, 1, usize::MAX, &styles[1], &[]);
    assert!(plain.code_ranges.is_empty(), "no code span, no chip");
}

/// A thematic break hides its `---` and flags `is_hr` for the drawn rule — but
/// reveals the text (no rule) while the cursor is on the line, for editing.
#[test]
fn thematic_break_hides_text_and_flags_rule() {
    // Blank lines around `---` so it parses as a thematic break, not a setext
    // heading underline (`a\n---` would make "a" an H2). The break is line 2.
    let buffer: Buffer = "a\n\n---\n\nb\n".parse().unwrap();
    let snap = buffer.render_snapshot();

    // Cursor off the `---` line: text hidden, rule flagged.
    let lr = build_line_render(&snap, 2, 0, &[], &[]);
    assert!(lr.is_hr, "off-line thematic break renders as a rule");
    assert!(lr.text.is_empty(), "the `---` text is hidden");

    // Cursor on the `---` line: text revealed, no rule.
    let on = snap.line_markers(2).range.start;
    let lr = build_line_render(&snap, 2, on, &[], &[]);
    assert!(!lr.is_hr, "revealed for editing when cursor is on it");
    assert_eq!(lr.text, "---");
}

/// A paragraph that is only `![alt](url)` flags `image: Some` (with url + alt) and
/// hides its markdown text, so the draw path paints an image block instead. When the
/// cursor is on the line, `image` is `None` and the raw markdown is revealed.
#[test]
fn standalone_image_detected_off_line_revealed_on_line() {
    let buffer: Buffer = "![a badge](img/badge.png)\n".parse().unwrap();
    let snap = buffer.render_snapshot();
    let styles = buffer.inline_styles_by_line();

    let off = build_line_render(&snap, 0, usize::MAX, &styles[0], &[]);
    let img = off
        .image
        .as_ref()
        .expect("standalone image detected off-line");
    assert_eq!(img.url, "img/badge.png");
    assert_eq!(img.alt, "a badge");
    assert!(off.text.is_empty(), "the `![alt](url)` markdown is hidden");

    // Cursor on the line: reveal the raw markdown, no image block.
    let on = build_line_render(&snap, 0, 0, &styles[0], &[]);
    assert!(
        on.image.is_none(),
        "cursor on the line reveals raw markdown"
    );
    assert_eq!(on.text, "![a badge](img/badge.png)");
}

/// An image that is only part of a paragraph (surrounding text) is not standalone:
/// it stays inline text/link, `image` is `None`.
#[test]
fn inline_image_is_not_standalone() {
    let buffer: Buffer = "see ![a](x.png) here\n".parse().unwrap();
    let snap = buffer.render_snapshot();
    let styles = buffer.inline_styles_by_line();
    let lr = build_line_render(&snap, 0, usize::MAX, &styles[0], &[]);
    assert!(
        lr.image.is_none(),
        "image amid other text is not standalone"
    );
}

/// Two images on one line (a badge row) become inline-image refs off-cursor: their
/// `![...](...)` markdown is hidden and their display offsets ascend. Reveal is
/// per-image: the caret inside one reveals only that one (the other stays a box); a
/// caret elsewhere on the line keeps both rendered.
#[test]
fn inline_images_reveal_per_image() {
    // "![a](x.png) and ![b](y.png)": image 1 spans 0..11, " and " 11..16, image 2 16..27.
    let buffer: Buffer = "![a](x.png) and ![b](y.png)\n".parse().unwrap();
    let snap = buffer.render_snapshot();
    let styles = buffer.inline_styles_by_line();

    let off = build_line_render(&snap, 0, usize::MAX, &styles[0], &[]);
    assert_eq!(off.inline_images.len(), 2, "both inline images detected");
    assert!(
        off.inline_images[0].display_offset <= off.inline_images[1].display_offset,
        "display offsets ascend left-to-right"
    );
    assert!(
        !off.text.contains("!["),
        "markdown hidden, got {:?}",
        off.text
    );
    assert!(off.image.is_none(), "not a standalone image");

    // Caret inside the first image: it reveals, the second stays a box.
    let in_first = build_line_render(&snap, 0, 2, &styles[0], &[]);
    assert_eq!(
        in_first.inline_images.len(),
        1,
        "only the other image stays a box"
    );
    assert!(in_first.text.contains("![a]"), "caret's image shown raw");

    // Caret on the line but between the images: both stay boxes.
    let between = build_line_render(&snap, 0, 13, &styles[0], &[]);
    assert_eq!(
        between.inline_images.len(),
        2,
        "off-caret images stay boxes"
    );
}

/// The blockquote bar is no longer a `▎` glyph in the text — the marker collapses
/// to spacing and one gutter offset per nesting level is exposed for the drawn rule.
#[test]
fn blockquote_exposes_gutter_offsets_not_glyph() {
    let single: Buffer = "> quoted line\n".parse().unwrap();
    let snap = single.render_snapshot();
    let lr = build_line_render(&snap, 0, usize::MAX, &[], &[]);
    assert!(!lr.text.contains('▎'), "bar must not be a text glyph");
    assert_eq!(lr.quote_bar_bytes, vec![0], "one gutter at the line start");

    let nested: Buffer = "> > deeply quoted\n".parse().unwrap();
    let snap = nested.render_snapshot();
    let lr = build_line_render(&snap, 0, usize::MAX, &[], &[]);
    assert_eq!(lr.quote_bar_bytes.len(), 2, "one gutter per nesting level");
    assert_eq!(lr.quote_bar_bytes[0], 0, "outer gutter at line start");
    assert!(
        lr.quote_bar_bytes[1] > lr.quote_bar_bytes[0],
        "inner gutter sits to the right of the outer"
    );
}

#[test]
fn quote_bars_go_from_left_to_right() {
    let nested: Buffer = "> > > deep\n".parse().unwrap();
    let lr = build_line_render(&nested.render_snapshot(), 0, usize::MAX, &[], &[]);
    assert_eq!(lr.quote_bar_bytes, vec![0, 2, 4]);
}

#[test]
fn a_standalone_image_has_no_boxes() {
    let buffer: Buffer = "![alt](u.png)\n".parse().unwrap();
    let styles = buffer.inline_styles_by_line();
    let lr = build_line_render(&buffer.render_snapshot(), 0, usize::MAX, &styles[0], &[]);
    assert!(lr.image.is_some());
    assert!(lr.inline_images.is_empty());
    assert_eq!(lr.text, "");
}
