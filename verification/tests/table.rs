//! Tables.
use ropey::Rope;
use std::str::FromStr;
use writ::marker::{collect_node_infos, ParsedNodes};
use writ::parser::MarkdownParser;
use writ::table::{row_from_raw_line, row_kind_at_line, Align, RowKind, TableCell, TableInfo};

/// A parsed document.
struct Buffer {
    rope: Rope,
    parsed: ParsedNodes,
}

impl FromStr for Buffer {
    type Err = ();

    fn from_str(text: &str) -> Result<Self, ()> {
        let rope = Rope::from_str(text);
        let tree = MarkdownParser::default().parse_rope(&rope, None).ok_or(())?;
        let parsed = collect_node_infos(tree.block_tree(), &rope);
        Ok(Buffer { rope, parsed })
    }
}

impl Buffer {
    fn text(&self) -> String {
        self.rope.to_string()
    }

    fn rope(&self) -> &Rope {
        &self.rope
    }

    fn parsed(&self) -> &ParsedNodes {
        &self.parsed
    }

    fn line_to_byte(&self, line: usize) -> usize {
        self.rope.line_to_byte(line)
    }

    fn table_containing_offset(&self, offset: usize) -> Option<&TableInfo> {
        self.parsed.tables.iter().find(|t| t.block.contains(&offset))
    }

    fn table_row_at_line(&self, line: usize) -> Option<(&TableInfo, RowKind)> {
        let byte_to_line = |b: usize| self.rope.byte_to_line(b);
        self.parsed
            .tables
            .iter()
            .find_map(|t| row_kind_at_line(t, line, byte_to_line).map(|k| (t, k)))
    }
}

fn cell_text<'a>(text: &'a str, cell: &TableCell) -> &'a str {
    text[cell.content.clone()].trim()
}

fn only_table(buf: &Buffer) -> TableInfo {
    let tables = &buf.parsed().tables;
    assert_eq!(tables.len(), 1, "expected exactly one table");
    tables[0].clone()
}

#[test]
fn row_from_raw_line_handles_missing_outer_pipes() {
    // A healed continuation row may omit its border pipes; GFM still reads it as
    // multiple cells. `1 | 2` must be two cells, not one.
    let buf: Buffer = "1 | 2 | 3".parse().unwrap();
    let text = buf.text();
    let row = row_from_raw_line(buf.rope(), 0, text.trim_end().len());
    assert_eq!(row.cells.len(), 3);
    assert_eq!(cell_text(&text, &row.cells[0]), "1");
    assert_eq!(cell_text(&text, &row.cells[1]), "2");
    assert_eq!(cell_text(&text, &row.cells[2]), "3");
}

#[test]
fn row_from_raw_line_keeps_empty_interior_cell() {
    // `| | b |` — the empty first cell is real (between border and first inner pipe),
    // only the border segments are dropped.
    let buf: Buffer = "| | b |".parse().unwrap();
    let text = buf.text();
    let row = row_from_raw_line(buf.rope(), 0, text.trim_end().len());
    assert_eq!(row.cells.len(), 2);
    assert_eq!(cell_text(&text, &row.cells[0]), "");
    assert_eq!(cell_text(&text, &row.cells[1]), "b");
}

#[test]
fn trailing_empty_row_is_healed() {
    // An all-empty trailing row makes tree-sitter drop it AND the filled row before it;
    // healing recovers both so the whole table still grid-renders.
    let buf: Buffer = "| A | B |\n| - | - |\n| 1 | 2 |\n|   |   |\n"
        .parse()
        .unwrap();
    let t = only_table(&buf);
    assert_eq!(t.body.len(), 2, "filled + empty row both recovered");
    assert_eq!(t.ncols, 2);
    let text = buf.text();
    assert_eq!(cell_text(&text, &t.body[0].cells[0]), "1");
    assert_eq!(cell_text(&text, &t.body[0].cells[1]), "2");
    assert!(
        t.body[1]
            .cells
            .iter()
            .all(|c| cell_text(&text, c).is_empty())
    );
    // The empty row is inside the block, so it renders as an (empty) grid row.
    assert!(t.block.contains(&buf.line_to_byte(3)));
}

#[test]
fn mid_table_empty_row_does_not_truncate() {
    let buf: Buffer = "| A | B |\n| - | - |\n| 1 | 2 |\n|   |   |\n| 3 | 4 |\n"
        .parse()
        .unwrap();
    let t = only_table(&buf);
    assert_eq!(
        t.body.len(),
        3,
        "an empty row mid-table keeps the rows below it"
    );
    let text = buf.text();
    assert_eq!(cell_text(&text, &t.body[2].cells[0]), "3");
}

#[test]
fn healing_stops_at_blank_line() {
    // A blank line ends the table; a following pipe-containing paragraph isn't absorbed.
    let buf: Buffer = "| A | B |\n| - | - |\n| 1 | 2 |\n\nafter | pipe\n"
        .parse()
        .unwrap();
    let t = only_table(&buf);
    assert_eq!(t.body.len(), 1);
}

#[test]
fn empty_row_does_not_corrupt_next_table() {
    // An empty row in the first table used to make tree-sitter splice a phantom table
    // whose block started inside the first table and swallowed the second — garbling it.
    let src =
        "| A | B |\n| - | - |\n| x | y |\n|   |   |\n\n## H\n| C | D |\n| - | - |\n| 1 | 2 |\n";
    let buf: Buffer = src.parse().unwrap();
    let ts = &buf.parsed().tables;
    assert_eq!(ts.len(), 2, "two distinct tables");
    assert!(
        ts[0].block.end <= ts[1].block.start,
        "table blocks must not overlap: {:?} vs {:?}",
        ts[0].block,
        ts[1].block
    );
    let text = buf.text();
    assert_eq!(cell_text(&text, &ts[1].header.cells[0]), "C");
    assert_eq!(cell_text(&text, &ts[1].body[0].cells[1]), "2");
}

#[test]
fn healed_row_cells_parse() {
    let buf: Buffer = "| A | B |\n| - | - |\n| hi | yo |\n|   |   |\n"
        .parse()
        .unwrap();
    let t = only_table(&buf);
    let text = buf.text();
    assert_eq!(cell_text(&text, &t.body[0].cells[0]), "hi");
    assert_eq!(cell_text(&text, &t.body[0].cells[1]), "yo");
}

#[test]
fn basic_two_col() {
    let buf: Buffer = "| a | b |\n|:--|--:|\n| 1 | 2 |\n".parse().unwrap();
    let text = buf.text();
    let t = only_table(&buf);

    assert_eq!(t.ncols, 2);
    assert_eq!(t.aligns, vec![Align::Left, Align::Right]);

    assert_eq!(t.header.cells.len(), 2);
    assert_eq!(cell_text(&text, &t.header.cells[0]), "a");
    assert_eq!(cell_text(&text, &t.header.cells[1]), "b");

    assert_eq!(t.body.len(), 1);
    assert_eq!(cell_text(&text, &t.body[0].cells[0]), "1");
    assert_eq!(cell_text(&text, &t.body[0].cells[1]), "2");
}

#[test]
fn center_alignment() {
    let buf: Buffer = "| a | b |\n|:-:|:-:|\n| 1 | 2 |\n".parse().unwrap();
    let t = only_table(&buf);
    assert_eq!(t.aligns, vec![Align::Center, Align::Center]);
}

#[test]
fn default_alignment() {
    let buf: Buffer = "| a | b |\n|---|---|\n| 1 | 2 |\n".parse().unwrap();
    let t = only_table(&buf);
    assert_eq!(t.aligns, vec![Align::Left, Align::Left]);
}

#[test]
fn multi_row_and_ragged() {
    // Second body row has only one cell; ncols stays the header count (2).
    let buf: Buffer = "| a | b |\n|---|---|\n| 1 | 2 |\n| 3 |\n".parse().unwrap();
    let text = buf.text();
    let t = only_table(&buf);

    assert_eq!(t.ncols, 2);
    assert_eq!(t.body.len(), 2);
    assert_eq!(t.body[0].cells.len(), 2);
    assert_eq!(t.body[1].cells.len(), 1);
    assert_eq!(cell_text(&text, &t.body[1].cells[0]), "3");
}

#[test]
fn spike_a_lone_header_is_not_a_table() {
    // A header row alone (no delimiter) parses as a paragraph, not a table.
    let buf: Buffer = "| a | b |\n".parse().unwrap();
    assert!(buf.parsed().tables.is_empty());

    // Adding the delimiter line makes it exactly one table.
    let buf2: Buffer = "| a | b |\n|---|---|\n".parse().unwrap();
    assert_eq!(buf2.parsed().tables.len(), 1);
}

#[test]
fn snapshot_offset_and_row_lookup() {
    let buf: Buffer = "| a | b |\n|:--|--:|\n| 1 | 2 |\n| 3 | 4 |\n"
        .parse()
        .unwrap();

    // Inside the table block resolves to the table; outside is None.
    let inside = buf.table_containing_offset(15);
    assert!(inside.is_some());
    assert_eq!(inside.unwrap().ncols, 2);
    assert!(buf.table_containing_offset(1000).is_none());

    // Line roles: header / delimiter / body rows.
    assert!(matches!(
        buf.table_row_at_line(0),
        Some((_, RowKind::Header))
    ));
    assert!(matches!(
        buf.table_row_at_line(1),
        Some((_, RowKind::Delimiter))
    ));
    assert!(matches!(
        buf.table_row_at_line(2),
        Some((_, RowKind::Body(0)))
    ));
    assert!(matches!(
        buf.table_row_at_line(3),
        Some((_, RowKind::Body(1)))
    ));
}

#[test]
fn tables_are_collected_in_order() {
    let buf: Buffer = "| a |\n|---|\n| 1 |\n\ntext\n\n| b |\n|---|\n| 2 |\n".parse().unwrap();
    let starts: Vec<usize> = buf.parsed().tables.iter().map(|t| t.block.start).collect();
    assert_eq!(starts, vec![0, 25]);
}

#[test]
fn cells_are_trimmed_of_ascii_whitespace() {
    let buf: Buffer = "|\t\u{c}a \u{c}| b\u{b} |".parse().unwrap();
    let text = buf.text();
    let row = row_from_raw_line(buf.rope(), 0, text.len());
    assert_eq!(row.cells.len(), 2);
    assert_eq!(&text[row.cells[0].content.clone()], "a");
    // The vertical tab is no ASCII whitespace.
    assert_eq!(&text[row.cells[1].content.clone()], "b\u{b}");
}
