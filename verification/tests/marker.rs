//! Block markers.
use ropey::Rope;
use std::ops::Range;
use std::str::FromStr;
use writ::marker::{
    collect_node_infos, increment_ordered_marker, is_line_in_checked_task, is_line_in_code_block,
    markers_at_from_infos, LineMarkers, Marker, MarkerKind, OrderedMarker, ParsedNodes,
    UnorderedMarker,
};
use writ::parser::{MarkdownParser, MarkdownTree};
use writ::syntax::{children, NodeKind, SyntaxNode};

/// A parsed document.
struct Buffer {
    rope: Rope,
    tree: MarkdownTree,
    parsed: ParsedNodes,
}

impl FromStr for Buffer {
    type Err = ();

    fn from_str(text: &str) -> Result<Self, ()> {
        let rope = Rope::from_str(text);
        let tree = MarkdownParser::default().parse_rope(&rope, None).ok_or(())?;
        let parsed = collect_node_infos(tree.block_tree(), &rope);
        Ok(Buffer { rope, tree, parsed })
    }
}

impl Buffer {
    fn lines(&self) -> Vec<LineMarkers> {
        (0..self.rope.len_lines()).map(|i| self.line(i)).collect()
    }

    fn line(&self, line_number: usize) -> LineMarkers {
        let start = self.rope.line_to_byte(line_number);
        let text = self.rope.line(line_number).to_string();
        let end = start + text.trim_end_matches('\n').len();
        let nodes = &self.parsed.nodes;
        LineMarkers {
            range: start..end,
            line_number,
            markers: markers_at_from_infos(nodes, &self.rope, start, end),
            in_checked_task: is_line_in_checked_task(nodes, start),
            in_code_block: is_line_in_code_block(nodes, start),
        }
    }

    fn text(&self) -> String {
        self.rope.to_string()
    }

    fn rope(&self) -> &Rope {
        &self.rope
    }

    /// The deepest node around a byte.
    fn node_at(&self, byte: usize) -> Option<SyntaxNode> {
        let nodes = self.tree.block_tree();
        nodes.iter().filter(|n| n.start <= byte && byte < n.end).last().copied()
    }
}

fn kinds(markers: &[Marker]) -> Vec<&MarkerKind> {
    markers.iter().map(|m| &m.kind).collect()
}

// Helper to check if marker is an unordered list item
fn is_unordered_list(kind: &MarkerKind) -> bool {
    matches!(kind, MarkerKind::ListItem { ordered: false, .. })
}

// Helper to check if marker is an ordered list item
fn is_ordered_list(kind: &MarkerKind) -> bool {
    matches!(kind, MarkerKind::ListItem { ordered: true, .. })
}

// Helper to check if marker is an unchecked checkbox
fn is_checkbox_unchecked(kind: &MarkerKind) -> bool {
    matches!(kind, MarkerKind::Checkbox { checked: false })
}

// Helper to check if marker is a checked checkbox
fn is_checkbox_checked(kind: &MarkerKind) -> bool {
    matches!(kind, MarkerKind::Checkbox { checked: true })
}

#[test]
fn test_block_continuation_structure() {
    // Understand where block_continuation nodes appear
    let buf: Buffer = "> Line 1\n> Line 2\n".parse().unwrap();
    println!("{:?}", buf.tree.block_tree());

    // Line 2 is bytes 9-17 ("> Line 2"): its prefix is a block_continuation.
    let node = buf.node_at(10).unwrap();
    assert_eq!(node.kind, NodeKind::BlockContinuation);
    assert_eq!((node.start, node.end), (9, 11));
    // Probe at end of line (16)
    assert_eq!(buf.node_at(16).unwrap().kind, NodeKind::Inline);
}

#[test]
fn test_simple_list() {
    let buf: Buffer = "- Item\n".parse().unwrap();
    let lines = buf.lines();
    assert!(matches!(
        lines[0].markers.first().map(|m| &m.kind),
        Some(MarkerKind::ListItem { ordered: false, .. })
    ));
}

#[test]
fn test_empty_list_item() {
    // "- " with no content - should still be recognized as a list item
    let buf: Buffer = "- \n".parse().unwrap();
    let lines = buf.lines();
    assert!(matches!(
        lines[0].markers.first().map(|m| &m.kind),
        Some(MarkerKind::ListItem { ordered: false, .. })
    ));
}

#[test]
fn test_list_items_with_paragraph_break() {
    // Two list items with a blank line between them
    let buf: Buffer = "- hey\n\n- \n".parse().unwrap();
    let lines = buf.lines();

    // Line 0: first list item
    assert_eq!(lines[0].markers.len(), 1);
    assert!(is_unordered_list(&lines[0].markers[0].kind));

    // Line 1: blank line
    assert!(lines[1].markers.is_empty());

    // Line 2: second list item (empty)
    assert_eq!(lines[2].markers.len(), 1);
    assert!(is_unordered_list(&lines[2].markers[0].kind));
}

#[test]
fn test_nested_paragraph_under_task_list() {
    // Task list with nested paragraph - uses 2-space indent (not 6)
    // because 4+ spaces triggers indented code block detection
    let buf: Buffer = "- [ ] task\n\n  nested\n".parse().unwrap();
    let lines = buf.lines();

    // Line 0: task list item - now has 2 markers (Checkbox + ListItem)
    assert_eq!(lines[0].markers.len(), 2);
    assert!(is_checkbox_unchecked(&lines[0].markers[0].kind));
    assert!(is_unordered_list(&lines[0].markers[1].kind));

    // Line 1: blank
    assert!(lines[1].markers.is_empty());

    // Line 2: nested paragraph with 2-space indent
    assert_eq!(kinds(&lines[2].markers), vec![&MarkerKind::Indent]);
    assert_eq!(lines[2].markers[0].range.len(), 2);
}

#[test]
fn test_nested_paragraph_indent_ordered_list() {
    // Ordered lists need marker-width indent (3 for "1. ", 4 for "10. ")
    // 2-space indent breaks out of the list.
    let buf: Buffer = "1. item\n".parse().unwrap();
    let lines = buf.lines();
    // Should produce 3-space indent to match "1. "
    assert_eq!(lines[0].nested_paragraph_indent(buf.rope()), "   ");
}

#[test]
fn test_nested_paragraph_indent_double_digit_ordered_list() {
    // Need 10 items to get a double-digit marker (Buffer normalizes "10. " to "1. ")
    let buf: Buffer = "1. a\n2. b\n3. c\n4. d\n5. e\n6. f\n7. g\n8. h\n9. i\n10. j\n"
        .parse()
        .unwrap();
    let lines = buf.lines();
    // Line 9 (0-indexed) is "10. j" - should produce 4-space indent
    assert_eq!(lines[9].nested_paragraph_indent(buf.rope()), "    ");
}

#[test]
fn test_nested_paragraph_indent_unordered_list() {
    // Unordered lists use 2-space indent (not marker width)
    // to avoid triggering indented code block detection
    let buf: Buffer = "- item\n".parse().unwrap();
    let lines = buf.lines();
    assert_eq!(lines[0].nested_paragraph_indent(buf.rope()), "  ");
}

#[test]
fn test_multiline_blockquote() {
    let buf: Buffer = "> Line 1\n> Line 2\n".parse().unwrap();
    let lines = buf.lines();

    println!("Line 0 markers: {:?}", lines[0].markers);
    println!("Line 1 markers: {:?}", lines[1].markers);

    assert_eq!(kinds(&lines[0].markers), vec![&MarkerKind::BlockQuote]);
    assert_eq!(kinds(&lines[1].markers), vec![&MarkerKind::BlockQuote]);
}

#[test]
fn test_nested_blockquote() {
    let buf: Buffer = "> Level 1\n> > Level 2\n".parse().unwrap();
    let text = buf.text();

    let lines = buf.lines();
    println!("Line 0 markers: {:?}", lines[0].markers);
    println!("Line 1 markers: {:?}", lines[1].markers);

    assert_eq!(kinds(&lines[0].markers), vec![&MarkerKind::BlockQuote]);
    assert_eq!(
        kinds(&lines[1].markers),
        vec![&MarkerKind::BlockQuote, &MarkerKind::BlockQuote]
    );
}

#[test]
fn test_list_in_blockquote() {
    let buf: Buffer = "> - Item\n".parse().unwrap();
    let lines = buf.lines();
    assert_eq!(lines[0].markers.len(), 2);
    assert!(is_unordered_list(&lines[0].markers[0].kind));
    assert!(matches!(lines[0].markers[1].kind, MarkerKind::BlockQuote));
}

#[test]
fn test_ordered_list() {
    let buf: Buffer = "1. First\n".parse().unwrap();
    let lines = buf.lines();
    assert_eq!(lines[0].markers.len(), 1);
    assert!(is_ordered_list(&lines[0].markers[0].kind));
}

#[test]
fn test_task_list() {
    let buf: Buffer = "- [ ] Todo\n- [x] Done\n".parse().unwrap();
    let lines = buf.lines();

    // Task list now has 2 markers: Checkbox + ListItem
    assert_eq!(lines[0].markers.len(), 2);
    assert!(is_checkbox_unchecked(&lines[0].markers[0].kind));
    assert!(is_unordered_list(&lines[0].markers[1].kind));

    assert_eq!(lines[1].markers.len(), 2);
    assert!(is_checkbox_checked(&lines[1].markers[0].kind));
    assert!(is_unordered_list(&lines[1].markers[1].kind));
}

#[test]
fn test_heading() {
    let buf: Buffer = "## Heading\n".parse().unwrap();
    let lines = buf.lines();
    assert_eq!(kinds(&lines[0].markers), vec![&MarkerKind::Heading(2)]);
}

#[test]
fn test_fenced_code_block() {
    let buf: Buffer = "```rust\nlet x = 1;\n```\n".parse().unwrap();
    let lines = buf.lines();

    // Opening fence with language
    assert_eq!(
        kinds(&lines[0].markers),
        vec![&MarkerKind::CodeBlockFence {
            language: Some("rust".to_string()),
            is_opening: true,
        }]
    );
    // Content lines have no markers (code block detection handled separately)
    assert_eq!(kinds(&lines[1].markers), vec![] as Vec<&MarkerKind>);
    // Closing fence
    assert_eq!(
        kinds(&lines[2].markers),
        vec![&MarkerKind::CodeBlockFence {
            language: None,
            is_opening: false,
        }]
    );
}

#[test]
fn test_fenced_code_block_with_indentation() {
    let buf: Buffer = "```rust\nfn main() {\n    println!(\"hello\");\n}\n```\n"
        .parse()
        .unwrap();
    let lines = buf.lines();

    assert_eq!(
        kinds(&lines[0].markers),
        vec![&MarkerKind::CodeBlockFence {
            language: Some("rust".to_string()),
            is_opening: true,
        }]
    );
    // Content lines have no markers
    assert_eq!(kinds(&lines[1].markers), vec![] as Vec<&MarkerKind>);
    assert_eq!(kinds(&lines[2].markers), vec![] as Vec<&MarkerKind>);
    assert_eq!(kinds(&lines[3].markers), vec![] as Vec<&MarkerKind>);
    // Closing fence
    assert_eq!(
        kinds(&lines[4].markers),
        vec![&MarkerKind::CodeBlockFence {
            language: None,
            is_opening: false,
        }]
    );
}

#[test]
fn test_closing_fence_without_trailing_newline() {
    // Without trailing newline - the closing fence should still be detected
    let buf: Buffer = "```rust\ncode\n```".parse().unwrap();
    let lines = buf.lines();

    // Opening fence
    assert_eq!(
        kinds(&lines[0].markers),
        vec![&MarkerKind::CodeBlockFence {
            language: Some("rust".to_string()),
            is_opening: true,
        }]
    );
    // Content line
    assert_eq!(kinds(&lines[1].markers), vec![] as Vec<&MarkerKind>);
    // Closing fence should be detected even without trailing newline
    assert_eq!(
        kinds(&lines[2].markers),
        vec![&MarkerKind::CodeBlockFence {
            language: None,
            is_opening: false,
        }]
    );
}

#[test]
fn test_indented_code_block() {
    // Indented code blocks have no markers - detection handled separately
    let buf: Buffer = "    let x = 1;\n    let y = 2;\n".parse().unwrap();
    let text = buf.text();

    let lines = buf.lines();
    println!("Line 0: {:?}", lines[0].markers);
    println!("Line 1: {:?}", lines[1].markers);

    assert_eq!(kinds(&lines[0].markers), vec![] as Vec<&MarkerKind>);
    assert_eq!(kinds(&lines[1].markers), vec![] as Vec<&MarkerKind>);
}

#[test]
fn test_indented_code_block_in_blockquote() {
    // Blockquote containing an indented code block - should still have blockquote marker
    let buf: Buffer = ">     code\n".parse().unwrap();
    let text = buf.text();

    let lines = buf.lines();
    println!("Line 0: {:?}", lines[0].markers);

    // Should have the blockquote marker even though content is indented code
    assert_eq!(kinds(&lines[0].markers), vec![&MarkerKind::BlockQuote]);
}

#[test]
fn test_closing_fence_no_trailing_newline() {
    // Closing fence without trailing newline should still be detected
    // (tree-sitter doesn't emit the delimiter node without newline, so we detect manually)
    let buf: Buffer = "```rust\ncode\n```".parse().unwrap();
    assert!(buf.lines()[2].is_fence());
}

#[test]
fn test_thematic_break() {
    let buf: Buffer = "---\n".parse().unwrap();
    let lines = buf.lines();
    assert_eq!(kinds(&lines[0].markers), vec![&MarkerKind::ThematicBreak]);
}

#[test]
fn test_soft_wrapped_list_item() {
    let buf: Buffer = "- First line\n  continuation\n".parse().unwrap();
    let text = buf.text();

    let lines = buf.lines();
    println!("Line 0 markers: {:?}", lines[0].markers);
    println!("Line 1 markers: {:?}", lines[1].markers);

    assert_eq!(lines[0].markers.len(), 1);
    assert!(is_unordered_list(&lines[0].markers[0].kind));
    // Line 2: continuation has Indent marker for the "  " prefix
    assert_eq!(kinds(&lines[1].markers), vec![&MarkerKind::Indent]);
}

#[test]
fn test_multi_paragraph_list_item() {
    let buf: Buffer = "- First line\n\n  Second paragraph\n".parse().unwrap();
    let lines = buf.lines();

    assert_eq!(lines[0].markers.len(), 1);
    assert!(is_unordered_list(&lines[0].markers[0].kind));
    // Line 2: empty line - no markers
    assert_eq!(kinds(&lines[1].markers), vec![] as Vec<&MarkerKind>);
    // Line 3: second paragraph with indent
    assert_eq!(kinds(&lines[2].markers), vec![&MarkerKind::Indent]);
}

#[test]
fn test_nested_blockquote_with_indent() {
    // ">    > x" - outer blockquote with indent, then inner blockquote with content
    // Markers should be in reverse byte order: inner > first, then indent, then outer >
    let buf: Buffer = "> 1. hey\n>\n>    > x\n".parse().unwrap();
    let lines = buf.lines();

    // Line 2: ">    > x" has three markers
    // Bytes: "> 1. hey\n>\n>    > x\n"
    //        01234567890123456789
    // Line 2 is bytes 11-20: ">    > x\n"
    // Outer > at 11-13, indent at 13-16, inner > at 16-18
    assert_eq!(lines[2].markers.len(), 3);
    assert_eq!(
        kinds(&lines[2].markers),
        vec![
            &MarkerKind::BlockQuote, // inner "> " (16-18)
            &MarkerKind::Indent,     // spaces (13-16)
            &MarkerKind::BlockQuote, // outer "> " (11-13)
        ]
    );
    // Verify byte order is descending (innermost first)
    assert_eq!(lines[2].markers[0].range, 16..18); // inner "> "
    assert_eq!(lines[2].markers[1].range, 13..16); // "   "
    assert_eq!(lines[2].markers[2].range, 11..13); // outer "> "
}

#[test]
fn test_nested_list_in_nested_blockquote() {
    // Nested blockquote with list inside ordered list paragraph
    // Line 2 and Line 4 should have matching markers (both are ">    > - hey")
    let buf: Buffer = "> 1. item 1\n>\n>    > - hey\n>    >\n>    > - hey\n"
        .parse()
        .unwrap();
    let lines = buf.lines();

    // Both list item lines should have 4 markers:
    // [ListItem, BlockQuote(inner), Indent, BlockQuote(outer)]
    assert_eq!(lines[2].markers.len(), 4);
    assert_eq!(lines[4].markers.len(), 4);
    assert_eq!(kinds(&lines[2].markers), kinds(&lines[4].markers));
}

#[test]
fn test_blockquote_inside_list_paragraph() {
    let buf: Buffer = "1. item\n\n   > quote\n".parse().unwrap();
    let lines = buf.lines();

    // Line 0: ordered list item
    assert_eq!(lines[0].markers.len(), 1);
    assert!(is_ordered_list(&lines[0].markers[0].kind));
    // Line 1: empty line - no markers
    assert_eq!(kinds(&lines[1].markers), vec![] as Vec<&MarkerKind>);
    // Line 2: blockquote inside list's nested paragraph - has BlockQuote + Indent
    assert_eq!(
        kinds(&lines[2].markers),
        vec![&MarkerKind::BlockQuote, &MarkerKind::Indent]
    );
    // Check ranges: BlockQuote should be at byte 9 ("> "), Indent at byte 9
    // "1. item\n\n   > quote\n"
    //  0123456 7 8901234567
    // Line 2 starts at byte 9 ("   > quote\n")
    // BlockQuote marker is "> " at positions 12-14
    // Indent marker is "   " at positions 9-12
    let bq_marker = &lines[2].markers[0];
    let indent_marker = &lines[2].markers[1];
    assert_eq!(bq_marker.range, 12..14); // "> "
    assert_eq!(indent_marker.range, 9..12); // "   "

    // Continuation should include both: "   > "
    assert_eq!(lines[2].continuation_rope(buf.rope()), "   > ");
}

// ========================================================================
// Tests for Line struct methods
// ========================================================================

fn make_line(range: Range<usize>, markers: Vec<Marker>) -> LineMarkers {
    LineMarkers {
        range,
        line_number: 0,
        markers,
        in_checked_task: false,
        in_code_block: false,
    }
}

#[test]
fn test_line_marker_range_empty() {
    let line = make_line(0..10, vec![]);
    assert_eq!(line.marker_range(), None);
}

#[test]
fn test_line_marker_range_single() {
    let line = make_line(
        0..10,
        vec![Marker {
            kind: MarkerKind::ListItem {
                ordered: false,
                unordered_marker: Some(UnorderedMarker::Minus),
                ordered_marker: None,
                number: None,
            },
            range: 0..2,
        }],
    );
    assert_eq!(line.marker_range(), Some(0..2));
}

#[test]
fn test_line_marker_range_multiple() {
    // Markers are innermost to outermost (ListItem inside BlockQuote)
    let line = make_line(
        0..15,
        vec![
            Marker {
                kind: MarkerKind::ListItem {
                    ordered: false,
                    unordered_marker: Some(UnorderedMarker::Minus),
                    ordered_marker: None,
                    number: None,
                },
                range: 2..4,
            },
            Marker {
                kind: MarkerKind::BlockQuote,
                range: 0..2,
            },
        ],
    );
    assert_eq!(line.marker_range(), Some(0..4));
}

#[test]
fn test_line_substitution() {
    let buf: Buffer = "> - Item text here\n".parse().unwrap();
    let lines = buf.lines();
    // All markers (blockquote, list) are now rendered as spacers, not substitution
    assert_eq!(lines[0].substitution_rope(buf.rope()), "");
}

#[test]
fn test_line_substitution_task_list() {
    let buf: Buffer = "- [ ] Task item\n".parse().unwrap();
    let lines = buf.lines();
    // Task list markers are rendered as spacers, not substitution
    assert_eq!(lines[0].substitution_rope(buf.rope()), "");
}

#[test]
fn test_line_substitution_different_markers() {
    // All list markers are now rendered as spacers, not substitution
    let buf_minus: Buffer = "- item\n".parse().unwrap();
    let buf_star: Buffer = "* item\n".parse().unwrap();
    let buf_plus: Buffer = "+ item\n".parse().unwrap();

    assert_eq!(buf_minus.lines()[0].substitution_rope(buf_minus.rope()), "");
    assert_eq!(buf_star.lines()[0].substitution_rope(buf_star.rope()), "");
    assert_eq!(buf_plus.lines()[0].substitution_rope(buf_plus.rope()), "");
}

#[test]
fn test_task_list_substitution_different_markers() {
    // Task list markers are now rendered as spacers, not substitution
    let buf_minus: Buffer = "- [ ] task\n".parse().unwrap();
    let buf_star: Buffer = "* [ ] task\n".parse().unwrap();
    let buf_plus: Buffer = "+ [ ] task\n".parse().unwrap();

    assert_eq!(buf_minus.lines()[0].substitution_rope(buf_minus.rope()), "");
    assert_eq!(buf_star.lines()[0].substitution_rope(buf_star.rope()), "");
    assert_eq!(buf_plus.lines()[0].substitution_rope(buf_plus.rope()), "");
}

#[test]
fn test_line_continuation() {
    let buf: Buffer = "> - Item text here\n".parse().unwrap();
    let lines = buf.lines();
    assert_eq!(lines[0].continuation_rope(buf.rope()), "> - ");
}

#[test]
fn test_line_continuation_with_indent() {
    // Indent markers appear in nested paragraphs under list items
    let buf: Buffer = "- item\n\n  Second paragraph\n".parse().unwrap();
    let lines = buf.lines();
    // Line 2 is the indented paragraph
    assert_eq!(lines[2].continuation_rope(buf.rope()), "  ");
}

#[test]
fn test_line_continuation_nested_list() {
    // Nested list: "  - Nested" where marker includes leading whitespace
    let buf: Buffer = "- Top\n  - Nested\n".parse().unwrap();
    let lines = buf.lines();
    // ListItem marker extracts actual text including indent
    assert_eq!(lines[1].continuation_rope(buf.rope()), "  - ");
}

#[test]
fn test_line_has_border() {
    let line_with_quote = make_line(
        0..10,
        vec![Marker {
            kind: MarkerKind::BlockQuote,
            range: 0..2,
        }],
    );
    assert!(line_with_quote.has_border());

    let line_with_list = make_line(
        0..10,
        vec![Marker {
            kind: MarkerKind::ListItem {
                ordered: false,
                unordered_marker: Some(UnorderedMarker::Minus),
                ordered_marker: None,
                number: None,
            },
            range: 0..2,
        }],
    );
    assert!(!line_with_list.has_border());
}

#[test]
fn test_line_checkbox() {
    let line_unchecked = make_line(
        0..15,
        vec![Marker {
            kind: MarkerKind::Checkbox { checked: false },
            range: 2..6,
        }],
    );
    assert_eq!(line_unchecked.checkbox(), Some(false));

    let line_checked = make_line(
        0..15,
        vec![Marker {
            kind: MarkerKind::Checkbox { checked: true },
            range: 2..6,
        }],
    );
    assert_eq!(line_checked.checkbox(), Some(true));

    let line_no_checkbox = make_line(
        0..10,
        vec![Marker {
            kind: MarkerKind::ListItem {
                ordered: false,
                unordered_marker: Some(UnorderedMarker::Minus),
                ordered_marker: None,
                number: None,
            },
            range: 0..2,
        }],
    );
    assert_eq!(line_no_checkbox.checkbox(), None);
}

#[test]
fn test_line_leading_whitespace() {
    let text = "  - Item\n";
    let line = make_line(
        0..8,
        vec![Marker {
            kind: MarkerKind::ListItem {
                ordered: false,
                unordered_marker: Some(UnorderedMarker::Minus),
                ordered_marker: None,
                number: None,
            },
            range: 2..4,
        }],
    );
    assert_eq!(line.leading_whitespace(text), "  ");
}

#[test]
fn test_line_leading_whitespace_none() {
    let text = "- Item\n";
    let line = make_line(
        0..6,
        vec![Marker {
            kind: MarkerKind::ListItem {
                ordered: false,
                unordered_marker: Some(UnorderedMarker::Minus),
                ordered_marker: None,
                number: None,
            },
            range: 0..2,
        }],
    );
    assert_eq!(line.leading_whitespace(text), "");
}

#[test]
fn test_nested_list() {
    let buf: Buffer = "- First\n    - Nested\n".parse().unwrap();
    let text = buf.text();

    let lines = buf.lines();
    println!("Line 0: {:?}", lines[0].markers);
    println!("Line 1: {:?}", lines[1].markers);

    // Line 1: "    - Nested" - nested list item
    // block_continuation [8-10] creates Indent for "  "
    // list_marker_minus [10-14] has "  - " but we strip leading whitespace:
    //   - Indent [10-12] for the leading "  "
    //   - ListItem [12-14] for "- "
    // This gives us non-overlapping markers where spacers and markers are 1:1
    assert_eq!(lines[1].markers.len(), 3);
    assert!(matches!(lines[1].markers[0].kind, MarkerKind::Indent));
    assert!(is_unordered_list(&lines[1].markers[1].kind));
    assert!(matches!(lines[1].markers[2].kind, MarkerKind::Indent));
    assert_eq!(&text[lines[1].markers[0].range.clone()], "  "); // from list_marker
    assert_eq!(&text[lines[1].markers[1].range.clone()], "- "); // actual marker
    assert_eq!(&text[lines[1].markers[2].range.clone()], "  "); // from block_continuation
}

#[test]
fn test_two_nested_items_same_level() {
    // Both nested items have 4-space indent, should render at same level
    let buf: Buffer = "- test\n    - hey\n    - hey\n".parse().unwrap();
    let text = buf.text();

    let lines = buf.lines();
    for (i, line) in lines.iter().enumerate() {
        let line_text = &text[line.range.clone()];
        let leading = line.leading_whitespace(&text);
        let sub = line.substitution_rope(buf.rope());
        println!(
            "Line {}: {:?}\n  markers={:?}\n  leading_whitespace={:?} substitution={:?}",
            i, line_text, line.markers, leading, sub
        );
    }

    // Both line 1 and line 2 should have the same substitution
    // (indentation is now included in substitution via Indent markers)
    assert_eq!(
        lines[1].substitution_rope(buf.rope()),
        lines[2].substitution_rope(buf.rope())
    );
}

#[test]
fn test_marker_width_unordered() {
    let buf: Buffer = "- item\n".parse().unwrap();
    let lines = buf.lines();
    // "- " is 2 chars
    assert_eq!(lines[0].marker_width(), 2);
}

#[test]
fn test_marker_width_ordered_single_digit() {
    let buf: Buffer = "1. item\n".parse().unwrap();
    let lines = buf.lines();
    // "1. " is 3 chars
    assert_eq!(lines[0].marker_width(), 3);
}

#[test]
fn test_marker_width_ordered_double_digit() {
    // Need 10 items to get a double-digit marker (Buffer normalizes "10. " to "1. ")
    let buf: Buffer = "1. a\n2. b\n3. c\n4. d\n5. e\n6. f\n7. g\n8. h\n9. i\n10. j\n"
        .parse()
        .unwrap();
    let lines = buf.lines();
    // Line 9 (0-indexed) is "10. j" - marker is "10. " = 4 chars
    assert_eq!(lines[9].marker_width(), 4);
}

#[test]
fn test_marker_width_no_marker() {
    let buf: Buffer = "just text\n".parse().unwrap();
    let lines = buf.lines();
    assert_eq!(lines[0].marker_width(), 0);
}

#[test]
fn test_marker_width_task_list() {
    // Task list "- [ ] " is 6 chars total, but marker_width should be 2
    // because only the list marker "- " contributes to wrap indent.
    // The checkbox "[ ] " is rendered inline and doesn't contribute.
    let buf: Buffer = "- [ ] task\n".parse().unwrap();
    let lines = buf.lines();
    assert_eq!(lines[0].marker_width(), 2); // Not 6!
}

#[test]
fn test_nesting_threshold_unordered() {
    // "- " is 2 chars, so 2 spaces should nest
    let buf: Buffer = "- top\n  - nested\n".parse().unwrap();
    let lines = buf.lines();

    // Line 1 should have an Indent marker (it's nested)
    assert!(
        lines[1]
            .markers
            .iter()
            .any(|m| matches!(m.kind, MarkerKind::Indent))
    );
}

#[test]
fn test_nesting_threshold_unordered_insufficient() {
    // "- " is 2 chars, so 1 space should NOT nest (becomes sibling)
    let buf: Buffer = "- top\n - not nested\n".parse().unwrap();
    let text = buf.text();

    let lines = buf.lines();
    println!("Line 0: {:?}", lines[0].markers);
    println!("Line 1: {:?}", lines[1].markers);

    // Line 1 should NOT have an Indent marker (it's a sibling, not nested)
    assert!(
        !lines[1]
            .markers
            .iter()
            .any(|m| matches!(m.kind, MarkerKind::Indent))
    );
}

#[test]
fn test_nesting_threshold_ordered_single_digit() {
    // "1. " is 3 chars, so 3 spaces should nest
    let buf: Buffer = "1. top\n   - nested\n".parse().unwrap();
    let text = buf.text();

    let lines = buf.lines();
    println!("Line 0: {:?}", lines[0].markers);
    println!("Line 1: {:?}", lines[1].markers);

    // Line 1 should have an Indent marker (it's nested)
    assert!(
        lines[1]
            .markers
            .iter()
            .any(|m| matches!(m.kind, MarkerKind::Indent))
    );
}

#[test]
fn test_nesting_threshold_ordered_double_digit() {
    // "10. " is 4 chars, so 4 spaces should nest
    let buf: Buffer = "10. top\n    - nested\n".parse().unwrap();
    let text = buf.text();

    let lines = buf.lines();
    println!("Line 0: {:?}", lines[0].markers);
    println!("Line 1: {:?}", lines[1].markers);

    // Line 1 should have an Indent marker (it's nested)
    assert!(
        lines[1]
            .markers
            .iter()
            .any(|m| matches!(m.kind, MarkerKind::Indent))
    );
}

#[test]
fn test_nesting_threshold_ordered_triple_digit() {
    // "100. " is 5 chars, so 5 spaces should nest
    let buf: Buffer = "100. top\n     - nested\n".parse().unwrap();
    let text = buf.text();

    let lines = buf.lines();
    println!("Line 0: {:?}", lines[0].markers);
    println!("Line 1: {:?}", lines[1].markers);

    // Line 1 should have an Indent marker (it's nested)
    assert!(
        lines[1]
            .markers
            .iter()
            .any(|m| matches!(m.kind, MarkerKind::Indent))
    );
}

// ========================================================================
// Tests for marker detection with/without trailing whitespace
// ========================================================================

#[test]
fn test_blockquote_with_space() {
    let buf: Buffer = "> text\n".parse().unwrap();
    let lines = buf.lines();
    assert_eq!(kinds(&lines[0].markers), vec![&MarkerKind::BlockQuote]);
}

#[test]
fn test_blockquote_without_space() {
    // Does ">text" (no space after >) get recognized as blockquote?
    let buf: Buffer = ">text\n".parse().unwrap();
    let text = buf.text();

    let lines = buf.lines();
    println!("Markers for '>text': {:?}", lines[0].markers);
    // Result: YES, blockquote is recognized without space
    assert_eq!(kinds(&lines[0].markers), vec![&MarkerKind::BlockQuote]);
}

#[test]
fn test_unordered_list_minus_with_space() {
    let buf: Buffer = "- text\n".parse().unwrap();
    let lines = buf.lines();
    assert_eq!(lines[0].markers.len(), 1);
    assert!(is_unordered_list(&lines[0].markers[0].kind));
}

#[test]
fn test_unordered_list_minus_without_space() {
    // Does "-text" (no space after -) get recognized as list?
    let buf: Buffer = "-text\n".parse().unwrap();
    let text = buf.text();

    let lines = buf.lines();
    println!("Markers for '-text': {:?}", lines[0].markers);
    // Result: NO, list is NOT recognized without space
    assert_eq!(kinds(&lines[0].markers), vec![] as Vec<&MarkerKind>);
}

#[test]
fn test_unordered_list_star_with_space() {
    let buf: Buffer = "* text\n".parse().unwrap();
    let lines = buf.lines();
    assert_eq!(lines[0].markers.len(), 1);
    assert!(is_unordered_list(&lines[0].markers[0].kind));
}

#[test]
fn test_unordered_list_star_without_space() {
    // Does "*text" (no space after *) get recognized as list?
    let buf: Buffer = "*text\n".parse().unwrap();
    let text = buf.text();

    let lines = buf.lines();
    println!("Markers for '*text': {:?}", lines[0].markers);
    // Result: NO, list is NOT recognized without space (parsed as emphasis)
    assert_eq!(kinds(&lines[0].markers), vec![] as Vec<&MarkerKind>);
}

#[test]
fn test_unordered_list_plus_with_space() {
    let buf: Buffer = "+ text\n".parse().unwrap();
    let lines = buf.lines();
    assert_eq!(lines[0].markers.len(), 1);
    assert!(is_unordered_list(&lines[0].markers[0].kind));
}

#[test]
fn test_unordered_list_plus_without_space() {
    // Does "+text" (no space after +) get recognized as list?
    let buf: Buffer = "+text\n".parse().unwrap();
    let text = buf.text();

    let lines = buf.lines();
    println!("Markers for '+text': {:?}", lines[0].markers);
    // Result: NO, list is NOT recognized without space
    assert_eq!(kinds(&lines[0].markers), vec![] as Vec<&MarkerKind>);
}

#[test]
fn test_ordered_list_with_space() {
    let buf: Buffer = "1. text\n".parse().unwrap();
    let lines = buf.lines();
    assert_eq!(lines[0].markers.len(), 1);
    assert!(is_ordered_list(&lines[0].markers[0].kind));
}

#[test]
fn test_ordered_list_without_space() {
    // Does "1.text" (no space after .) get recognized as list?
    let buf: Buffer = "1.text\n".parse().unwrap();
    let text = buf.text();

    let lines = buf.lines();
    println!("Markers for '1.text': {:?}", lines[0].markers);
    // Result: NO, list is NOT recognized without space
    assert_eq!(kinds(&lines[0].markers), vec![] as Vec<&MarkerKind>);
}

#[test]
fn test_heading_with_space() {
    let buf: Buffer = "# text\n".parse().unwrap();
    let lines = buf.lines();
    assert_eq!(kinds(&lines[0].markers), vec![&MarkerKind::Heading(1)]);
}

#[test]
fn test_heading_without_space() {
    // Does "#text" (no space after #) get recognized as heading?
    let buf: Buffer = "#text\n".parse().unwrap();
    let text = buf.text();

    let lines = buf.lines();
    println!("Markers for '#text': {:?}", lines[0].markers);
    // Result: NO, heading is NOT recognized without space
    assert_eq!(kinds(&lines[0].markers), vec![] as Vec<&MarkerKind>);
}

#[test]
fn test_heading_h2_without_space() {
    // Does "##text" (no space after ##) get recognized as heading?
    let buf: Buffer = "##text\n".parse().unwrap();
    let text = buf.text();

    let lines = buf.lines();
    println!("Markers for '##text': {:?}", lines[0].markers);
    // Result: NO, heading is NOT recognized without space
    assert_eq!(kinds(&lines[0].markers), vec![] as Vec<&MarkerKind>);
}

#[test]
fn test_mixed_list_markers_tree_structure() {
    // Test whether the parser treats different unordered list markers as separate lists
    // Per CommonMark, different markers should create separate lists
    let buf: Buffer = "- a\n* b\n+ c".parse().unwrap();
    let nodes = buf.tree.block_tree();

    // Count how many 'list' nodes are direct children of the section/document
    let mut list_count = 0;
    for child in children(nodes, 0) {
        if nodes[child].kind == NodeKind::Section {
            for section_child in children(nodes, child) {
                if nodes[section_child].kind == NodeKind::List {
                    list_count += 1;
                }
            }
        } else if nodes[child].kind == NodeKind::List {
            list_count += 1;
        }
    }

    assert!(
        list_count == 1 || list_count == 3,
        "Expected either 1 unified list or 3 separate lists, got {}",
        list_count
    );
}

#[test]
fn test_ordered_list_marker_styles() {
    // Test whether tree-sitter distinguishes 1. vs 1) ordered list styles
    let buf_dot: Buffer = "1. item\n".parse().unwrap();
    let buf_paren: Buffer = "1) item\n".parse().unwrap();

    // Check that both are recognized as ordered lists
    assert!(is_ordered_list(&buf_dot.lines()[0].markers[0].kind));
    assert!(is_ordered_list(&buf_paren.lines()[0].markers[0].kind));
}

#[test]
fn test_increment_ordered_marker() {
    // Dot style
    assert_eq!(
        increment_ordered_marker("1. ", Some(OrderedMarker::Dot)),
        "2. "
    );
    assert_eq!(
        increment_ordered_marker("9. ", Some(OrderedMarker::Dot)),
        "10. "
    );
    assert_eq!(
        increment_ordered_marker("99. ", Some(OrderedMarker::Dot)),
        "100. "
    );

    // Parenthesis style
    assert_eq!(
        increment_ordered_marker("1) ", Some(OrderedMarker::Parenthesis)),
        "2) "
    );
    assert_eq!(
        increment_ordered_marker("5) ", Some(OrderedMarker::Parenthesis)),
        "6) "
    );

    // Default to dot if no marker specified
    assert_eq!(increment_ordered_marker("3. ", None), "4. ");
}

#[test]
fn test_ordered_list_continuation_increments() {
    let buf: Buffer = "1. First\n2. Second".parse().unwrap();
    let lines = buf.lines();

    // Line 1 (index 1) has "2. Second", continuation should be "3. "
    let continuation = lines[1].continuation_rope(buf.rope());
    assert_eq!(continuation, "3. ");
}

#[test]
fn test_ordered_list_in_blockquote_continuation() {
    let buf: Buffer = "> 1. First\n> 2. Second".parse().unwrap();
    let lines = buf.lines();

    // Continuation should be "> 3. "
    let continuation = lines[1].continuation_rope(buf.rope());
    assert_eq!(continuation, "> 3. ");
}

#[test]
fn debug_ordered_list_tree_structure() {
    let buf: Buffer = "1. First\n2. Second\n3. Third".parse().unwrap();
    println!("{:?}", buf.tree.block_tree());
    assert!(buf.tree.block_tree().iter().any(|n| n.kind == NodeKind::List));
    let text = buf.text();

}

#[test]
fn markers_go_from_the_innermost_out() {
    let buf: Buffer = "> - [x] done\n> ## deep\n".parse().unwrap();
    for line in buf.lines() {
        let starts: Vec<usize> = line.markers.iter().map(|m| m.range.start).collect();
        let mut sorted = starts.clone();
        sorted.sort_by(|a, b| b.cmp(a));
        assert_eq!(starts, sorted);
    }
    let task = buf.line(0);
    assert!(is_checkbox_checked(&task.markers[0].kind));
    assert!(is_unordered_list(&task.markers[1].kind));
    assert_eq!(task.markers[2].kind, MarkerKind::BlockQuote);
}

#[test]
fn code_blocks_are_collected_in_order() {
    let buf: Buffer = "```rust\na\n```\n\n- x\n\n  ~~~\n  b\n  ~~~\n".parse().unwrap();
    let starts: Vec<usize> = buf.parsed.code_blocks.iter().map(|b| b.block_range.start).collect();
    assert_eq!(starts.len(), 2);
    assert!(starts[0] < starts[1]);
    let info = buf.parsed.code_blocks[0].info_string_range.clone().unwrap();
    assert_eq!(&buf.text()[info], "rust");
}

#[test]
fn quotes_and_lists_are_containers() {
    let quote: Buffer = "> text\n".parse().unwrap();
    assert!(quote.line(0).has_container());
    assert!(quote.line(0).is_blockquote_only());
    let item: Buffer = "> - text\n".parse().unwrap();
    assert!(item.line(0).has_container());
    assert!(!item.line(0).is_blockquote_only());
    let heading: Buffer = "# text\n".parse().unwrap();
    assert!(!heading.line(0).has_container());
    assert!(!heading.line(0).is_blockquote_only());
}

fn minus_item(range: Range<usize>) -> Marker {
    Marker {
        kind: MarkerKind::ListItem {
            ordered: false,
            unordered_marker: Some(UnorderedMarker::Minus),
            ordered_marker: None,
            number: None,
        },
        range,
    }
}

#[test]
fn the_marker_range_combines_all_markers() {
    let indent = |range: Range<usize>| Marker { kind: MarkerKind::Indent, range };
    let line = make_line(8..20, vec![indent(10..12), minus_item(12..14), indent(8..10)]);
    assert_eq!(line.marker_range(), Some(8..14));
    assert_eq!(line.full_marker_range(), Some(8..14));
    assert_eq!(line.content_start(), 14);
    assert_eq!(line.marker_width(), 6);
}

#[test]
fn a_checkbox_is_a_container() {
    let checkbox = Marker { kind: MarkerKind::Checkbox { checked: false }, range: 2..6 };
    assert!(make_line(0..15, vec![checkbox]).has_container());
    let heading = Marker { kind: MarkerKind::Heading(1), range: 0..2 };
    assert!(!make_line(0..15, vec![heading]).has_container());
    assert!(!make_line(0..15, vec![]).has_container());
}

#[test]
fn leading_whitespace_stops_at_the_first_marker() {
    let quote = Marker { kind: MarkerKind::BlockQuote, range: 0..2 };
    let line = make_line(0..8, vec![minus_item(2..4), quote]);
    assert_eq!(line.leading_whitespace("> - Item\n"), "");
}
