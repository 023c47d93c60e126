//! Block and inline trees.
use writ::parser::{MarkdownParser, MarkdownTree};
use writ::syntax::{children, InputEdit, NodeKind, Point, SyntaxNode};

/// The node at the end of a path of child numbers from the root, by its index.
fn child(nodes: &Vec<SyntaxNode>, path: &[usize]) -> usize {
    let mut at = 0;
    for &i in path {
        at = children(nodes, at)[i];
    }
    at
}

fn check_ranges(tree: &MarkdownTree) {
    let nodes = tree.block_tree();
    assert_eq!(nodes[child(nodes, &[0])].kind, NodeKind::Section);
    assert_eq!(nodes[child(nodes, &[0, 0])].kind, NodeKind::AtxHeading);
    assert_eq!(nodes[child(nodes, &[0, 1])].kind, NodeKind::Paragraph);
    let inline = child(nodes, &[0, 1, 0]);
    assert_eq!(nodes[inline].kind, NodeKind::Inline);
    let inner = tree.inline_tree(inline).unwrap();
    assert_eq!(inner[child(inner, &[0])].kind, NodeKind::ShortcutLink);
}

#[test]
fn inline_ranges() {
    let code = "# title\n\nInline [content].\n";
    let mut parser = MarkdownParser::default();
    let mut tree = parser.parse(code.as_bytes(), None).unwrap();
    check_ranges(&tree);

    let code = "# Title\n\nInline [content].\n";
    tree.edit(&InputEdit {
        start_byte: 2,
        old_end_byte: 3,
        new_end_byte: 3,
        start_position: Point { row: 0, column: 2 },
        old_end_position: Point { row: 0, column: 3 },
        new_end_position: Point { row: 0, column: 3 },
    });
    let tree = parser.parse(code.as_bytes(), Some(&tree)).unwrap();
    check_ranges(&tree);
}

#[test]
fn changed_ranges_blockquote() {
    // Test: what changes when we remove a blockquote marker?
    let code1 = "> line one\n> line two\n> line three\n";
    let mut parser = MarkdownParser::default();
    let tree1 = parser.parse(code1.as_bytes(), None).unwrap();

    // Remove the `> ` from line one, making it a plain paragraph
    let code2 = "line one\n> line two\n> line three\n";
    let mut tree1_edited = parser.parse(code1.as_bytes(), None).unwrap();
    tree1_edited.edit(&InputEdit {
        start_byte: 0,
        old_end_byte: 2,
        new_end_byte: 0,
        start_position: Point { row: 0, column: 0 },
        old_end_position: Point { row: 0, column: 2 },
        new_end_position: Point { row: 0, column: 0 },
    });
    let tree2 = parser.parse(code2.as_bytes(), Some(&tree1_edited)).unwrap();

    let before = tree1.block_tree();
    let ranges: Vec<_> = tree2
        .block_tree()
        .iter()
        .filter(|n| !before.contains(n))
        .map(|n| n.start..n.end)
        .collect();
    // Removing the first blockquote marker must report at least line 0 changed.
    assert!(!ranges.is_empty());
    assert!(ranges.iter().any(|r| r.start == 0));
}

#[test]
fn bytes_that_are_not_text_parse() {
    let mut parser = MarkdownParser::default();
    for text in [&b"\x80abc\n"[..], b"# a\xff\x80 b\n\n- c\xbf\n", b"\xe2\x82", b""] {
        let tree = parser.parse(text, None).unwrap();
        assert_eq!(tree.block_tree()[0].start, 0);
        assert!(tree.block_tree().iter().all(|n| n.end <= text.len()));
    }
}

#[test]
fn an_edit_moves_the_nodes_and_feeds_the_next_parse() {
    let mut parser = MarkdownParser::default();
    let mut tree = parser.parse(b"# a\n\nb *c*\n", None).unwrap();
    tree.edit(&InputEdit {
        start_byte: 2,
        old_end_byte: 3,
        new_end_byte: 6,
        start_position: Point { row: 0, column: 2 },
        old_end_position: Point { row: 0, column: 3 },
        new_end_position: Point { row: 0, column: 6 },
    });
    let text = b"# wxyz\n\nb *c*\n";
    let moved = tree.block_tree().clone();
    assert_eq!(moved[0].end, text.len());
    let again = parser.parse(text, Some(&tree)).unwrap();
    let fresh = parser.parse(text, None).unwrap();
    assert_eq!(again.block_tree(), fresh.block_tree());
    assert_eq!(again.inline_trees(), fresh.inline_trees());
}
