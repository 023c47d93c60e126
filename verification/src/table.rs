//! GFM pipe-table model extraction.
//!
//! The block grammar parses GFM tables into a `pipe_table` node containing a
//! `pipe_table_header`, a `pipe_table_delimiter_row`, and zero or more
//! `pipe_table_row` nodes. Header/body rows hold `pipe_table_cell` children whose
//! byte range is the cell's inline content (plus any trailing space); delimiter
//! cells carry optional `pipe_table_align_left`/`pipe_table_align_right` marks.
//!
//! This module turns that subtree into a flat, position-indexed [`TableInfo`] with
//! no rendering. A lone header row with no delimiter row is NOT a table — it parses
//! as a `paragraph` — so such input yields nothing here.
use crate::rope::{
    lemma_line_of_monotone, line_count, line_of, rope_byte, rope_byte_to_line, rope_bytes, rope_len,
    rope_line_count, rope_line_to_byte, starts_line,
};
use crate::syntax::{
    children, children_of, depths_of, is_walk, lemma_children, lemma_depth_bound, lists, node_fits,
    subtree_end, tree_fits, NodeKind, SyntaxNode,
};
use crate::text::{ascii_space, is_ascii_space};
use std::ops::Range;
use vstd::prelude::*;

verus! {

/// Column alignment derived from a delimiter cell. `Left` is also the default when a
/// delimiter cell carries neither alignment mark.
#[derive(Debug, Clone, Copy, PartialEq, Eq, Structural)]
pub enum Align {
    Left,
    Right,
    Center,
}

/// A single table cell: the byte range of its inline content.
#[derive(Debug, Clone, PartialEq, Eq)]
pub struct TableCell {
    pub content: Range<usize>,
}

/// A header or body row: the byte range of its line plus its cells in order.
#[derive(Debug, Clone, PartialEq, Eq)]
pub struct TableRow {
    pub line: Range<usize>,
    pub cells: Vec<TableCell>,
}

/// The extracted model for one `pipe_table`.
#[derive(Debug, Clone, PartialEq, Eq)]
pub struct TableInfo {
    /// Byte range of the table, from the start of the header's line.
    pub block: Range<usize>,
    pub header: TableRow,
    /// Byte range of the `|---|---|` delimiter line.
    pub delimiter_line: Range<usize>,
    /// Per-column alignment, from the delimiter cells. Its length is the delimiter-cell
    /// count, which may differ from `ncols` — index defensively (default `Align::Left`).
    pub aligns: Vec<Align>,
    pub body: Vec<TableRow>,
    /// Max cell count across header and body rows.
    pub ncols: usize,
}

/// The role a buffer line plays within a table.
#[derive(Debug, Clone, Copy, PartialEq, Eq, Structural)]
pub enum RowKind {
    Header,
    Delimiter,
    /// Body row; the index is into [`TableInfo::body`].
    Body(usize),
}

/// What a row says: its line and its cells, as (start, end).
pub struct RowView {
    pub line: (int, int),
    pub cells: Seq<(int, int)>,
}

/// What a table says.
pub struct TableView {
    pub block: (int, int),
    pub header: RowView,
    pub delimiter_line: (int, int),
    pub aligns: Seq<Align>,
    pub body: Seq<RowView>,
    pub ncols: int,
}

/// A range as (start, end).
pub open spec fn pair(r: Range<usize>) -> (int, int) {
    (r.start as int, r.end as int)
}

impl View for TableRow {
    type V = RowView;

    open spec fn view(&self) -> RowView {
        RowView { line: pair(self.line), cells: self.cells@.map_values(|c: TableCell| pair(c.content)) }
    }
}

impl View for TableInfo {
    type V = TableView;

    open spec fn view(&self) -> TableView {
        TableView {
            block: pair(self.block),
            header: self.header@,
            delimiter_line: pair(self.delimiter_line),
            aligns: self.aligns@,
            body: self.body@.map_values(|r: TableRow| r@),
            ncols: self.ncols as int,
        }
    }
}

// ---------------------------------------------------------------------------
// Rows by line
// ---------------------------------------------------------------------------

/// `f` may answer `x` with a line other than `line`.
pub open spec fn may_miss<F: Fn(usize) -> usize>(f: F, x: usize, line: usize) -> bool {
    exists|l: usize| l != line && #[trigger] call_ensures(f, (x,), l)
}

/// Which row of `table` line `line_idx` is. Compares by line *number* (not byte
/// containment): error recovery in the parser can start a row node mid-line (after the
/// leading `|`), so a byte-range `contains` would miss the row's own line. `byte_to_line`
/// maps a byte offset to its 0-based line.
pub fn row_kind_at_line<F: Fn(usize) -> usize>(
    table: &TableInfo,
    line_idx: usize,
    byte_to_line: F,
) -> (r: Option<RowKind>)
    requires
        forall|x: usize| #[trigger] call_requires(byte_to_line, (x,)),
    ensures
        match r {
            Some(RowKind::Header) => call_ensures(
                byte_to_line,
                (table.header.line.start,),
                line_idx,
            ),
            Some(RowKind::Delimiter) => {
                &&& may_miss(byte_to_line, table.header.line.start, line_idx)
                &&& call_ensures(byte_to_line, (table.delimiter_line.start,), line_idx)
            },
            Some(RowKind::Body(k)) => {
                &&& may_miss(byte_to_line, table.header.line.start, line_idx)
                &&& may_miss(byte_to_line, table.delimiter_line.start, line_idx)
                &&& k < table.body@.len()
                &&& call_ensures(byte_to_line, (table.body@[k as int].line.start,), line_idx)
                &&& forall|j: int|
                    0 <= j < k ==> may_miss(
                        byte_to_line,
                        (#[trigger] table.body@[j]).line.start,
                        line_idx,
                    )
            },
            None => {
                &&& may_miss(byte_to_line, table.header.line.start, line_idx)
                &&& may_miss(byte_to_line, table.delimiter_line.start, line_idx)
                &&& forall|j: int|
                    0 <= j < table.body@.len() ==> may_miss(
                        byte_to_line,
                        (#[trigger] table.body@[j]).line.start,
                        line_idx,
                    )
            },
        },
{
    if byte_to_line(table.header.line.start) == line_idx {
        return Some(RowKind::Header);
    }
    if byte_to_line(table.delimiter_line.start) == line_idx {
        return Some(RowKind::Delimiter);
    }
    let mut k: usize = 0;
    while k < table.body.len()
        invariant
            k <= table.body@.len(),
            forall|x: usize| #[trigger] call_requires(byte_to_line, (x,)),
            may_miss(byte_to_line, table.header.line.start, line_idx),
            may_miss(byte_to_line, table.delimiter_line.start, line_idx),
            forall|j: int|
                0 <= j < k ==> may_miss(
                    byte_to_line,
                    (#[trigger] table.body@[j]).line.start,
                    line_idx,
                ),
        decreases table.body@.len() - k,
    {
        if byte_to_line(table.body[k].line.start) == line_idx {
            return Some(RowKind::Body(k));
        }
        k += 1;
    }
    None
}

// ---------------------------------------------------------------------------
// Cells
// ---------------------------------------------------------------------------

/// Byte `i` is ASCII whitespace.
pub open spec fn blank_at(bytes: Seq<u8>, i: int) -> bool {
    0 <= i < bytes.len() && is_ascii_space(bytes[i])
}

/// The first byte from `s` on that is no blank, `e` at most.
pub open spec fn skip_blank(bytes: Seq<u8>, s: int, e: int) -> int
    decreases e - s,
{
    if s < e && blank_at(bytes, s) {
        skip_blank(bytes, s + 1, e)
    } else {
        s
    }
}

/// Where the last byte before `e` ends that is no blank, `s` at least.
pub open spec fn skip_blank_back(bytes: Seq<u8>, s: int, e: int) -> int
    decreases e - s,
{
    if e > s && blank_at(bytes, e - 1) {
        skip_blank_back(bytes, s, e - 1)
    } else {
        e
    }
}

/// A range without the blanks at its two ends.
pub open spec fn trimmed_cell(bytes: Seq<u8>, s: int, e: int) -> (int, int) {
    let a = skip_blank(bytes, s, e);
    (a, skip_blank_back(bytes, a, e))
}

/// Trim leading/trailing ASCII whitespace off a cell node's byte range using the
/// rope, so the stored content range covers just the cell text.
fn trim_cell_range(rope: &ropey::Rope, start: usize, end: usize) -> (r: Range<usize>)
    ensures
        pair(r) == trimmed_cell(rope_bytes(*rope), start as int, end as int),
{
    let ghost bytes = rope_bytes(*rope);
    let mut s: usize = start;
    while s < end && is_blank(rope_byte(rope, s))
        invariant
            bytes == rope_bytes(*rope),
            start <= s,
            skip_blank(bytes, start as int, end as int) == skip_blank(bytes, s as int, end as int),
        decreases end - s,
    {
        s += 1;
    }
    let mut e: usize = end;
    while e > s && is_blank(rope_byte(rope, e - 1))
        invariant
            bytes == rope_bytes(*rope),
            e <= end,
            skip_blank_back(bytes, s as int, end as int) == skip_blank_back(
                bytes,
                s as int,
                e as int,
            ),
        decreases e,
    {
        e -= 1;
    }
    s..e
}

/// Whether a byte is there and is ASCII whitespace.
fn is_blank(b: Option<u8>) -> (r: bool)
    ensures
        r == (b is Some && is_ascii_space(b->0)),
{
    match b {
        Some(b) => ascii_space(b),
        None => false,
    }
}

/// The cells of the nodes `kids[..k]`.
pub open spec fn cells_upto(nodes: Seq<SyntaxNode>, bytes: Seq<u8>, kids: Seq<int>, k: int) -> Seq<
    (int, int),
>
    decreases k,
{
    if k <= 0 {
        seq![]
    } else {
        let rest = cells_upto(nodes, bytes, kids, k - 1);
        let c = nodes[kids[k - 1]];
        if c.kind == NodeKind::PipeTableCell {
            rest.push(trimmed_cell(bytes, c.start as int, c.end as int))
        } else {
            rest
        }
    }
}

/// The row that a header or row node stands for.
pub open spec fn row_of(nodes: Seq<SyntaxNode>, bytes: Seq<u8>, i: int) -> RowView {
    let kids = children_of(nodes, i);
    RowView {
        line: (nodes[i].start as int, nodes[i].end as int),
        cells: cells_upto(nodes, bytes, kids, kids.len() as int),
    }
}

/// Build a [`TableRow`] from a `pipe_table_header` or `pipe_table_row` node.
fn row_from_node(nodes: &Vec<SyntaxNode>, i: usize, rope: &ropey::Rope) -> (r: TableRow)
    requires
        i < nodes@.len(),
        nodes@[i as int].depth < usize::MAX,
    ensures
        r@ == row_of(nodes@, rope_bytes(*rope), i as int),
{
    let kids = children(nodes, i);
    let mut cells: Vec<TableCell> = Vec::new();
    let mut k: usize = 0;
    assert(cells@.map_values(|c: TableCell| pair(c.content)) =~= Seq::<(int, int)>::empty());
    while k < kids.len()
        invariant
            k <= kids@.len(),
            lists(kids@, children_of(nodes@, i as int)),
            forall|x: int| 0 <= x < kids@.len() ==> (#[trigger] kids@[x]) < nodes@.len(),
            cells@.map_values(|c: TableCell| pair(c.content)) == cells_upto(
                nodes@,
                rope_bytes(*rope),
                children_of(nodes@, i as int),
                k as int,
            ),
        decreases kids@.len() - k,
    {
        let c = nodes[kids[k]];
        if c.kind == NodeKind::PipeTableCell {
            let cell = TableCell { content: trim_cell_range(rope, c.start, c.end) };
            let ghost before = cells@;
            cells.push(cell);
            assert(cells@.map_values(|c: TableCell| pair(c.content)) =~= before.map_values(
                |c: TableCell| pair(c.content),
            ).push(pair(cell.content)));
        }
        k += 1;
    }
    TableRow { line: nodes[i].start..nodes[i].end, cells }
}

// ---------------------------------------------------------------------------
// Alignment
// ---------------------------------------------------------------------------

/// Some child of node `i` is of kind `k`.
pub open spec fn has_child(nodes: Seq<SyntaxNode>, i: int, k: NodeKind) -> bool {
    let kids = children_of(nodes, i);
    exists|x: int| 0 <= x < kids.len() && nodes[#[trigger] kids[x]].kind == k
}

/// Whether some child of node `i` is of kind `k`.
pub fn any_child(nodes: &Vec<SyntaxNode>, i: usize, k: NodeKind) -> (r: bool)
    requires
        i < nodes@.len(),
        nodes@[i as int].depth < usize::MAX,
    ensures
        r == has_child(nodes@, i as int, k),
{
    let kids = children(nodes, i);
    let mut x: usize = 0;
    while x < kids.len()
        invariant
            x <= kids@.len(),
            lists(kids@, children_of(nodes@, i as int)),
            forall|y: int| 0 <= y < kids@.len() ==> (#[trigger] kids@[y]) < nodes@.len(),
            forall|y: int|
                0 <= y < x ==> nodes@[#[trigger] children_of(nodes@, i as int)[y]].kind != k,
        decreases kids@.len() - x,
    {
        if nodes[kids[x]].kind == k {
            assert(nodes@[children_of(nodes@, i as int)[x as int]].kind == k);
            return true;
        }
        x += 1;
    }
    false
}

/// The alignment that a delimiter cell's marks give: both = Center, left only = Left,
/// right only = Right, neither = Left (default).
pub open spec fn align_of(nodes: Seq<SyntaxNode>, i: int) -> Align {
    let left = has_child(nodes, i, NodeKind::PipeTableAlignLeft);
    let right = has_child(nodes, i, NodeKind::PipeTableAlignRight);
    if left && right {
        Align::Center
    } else if right {
        Align::Right
    } else {
        Align::Left
    }
}

/// Derive alignment from a `pipe_table_delimiter_cell`'s marks.
fn align_from_delimiter_cell(nodes: &Vec<SyntaxNode>, i: usize) -> (r: Align)
    requires
        i < nodes@.len(),
        nodes@[i as int].depth < usize::MAX,
    ensures
        r == align_of(nodes@, i as int),
{
    let left = any_child(nodes, i, NodeKind::PipeTableAlignLeft);
    let right = any_child(nodes, i, NodeKind::PipeTableAlignRight);
    if left && right {
        Align::Center
    } else if right {
        Align::Right
    } else {
        Align::Left
    }
}

/// The alignments of the delimiter cells among `kids[..k]`.
pub open spec fn aligns_upto(nodes: Seq<SyntaxNode>, kids: Seq<int>, k: int) -> Seq<Align>
    decreases k,
{
    if k <= 0 {
        seq![]
    } else {
        let rest = aligns_upto(nodes, kids, k - 1);
        if nodes[kids[k - 1]].kind == NodeKind::PipeTableDelimiterCell {
            rest.push(align_of(nodes, kids[k - 1]))
        } else {
            rest
        }
    }
}

/// The alignments of a delimiter row.
pub open spec fn aligns_of(nodes: Seq<SyntaxNode>, i: int) -> Seq<Align> {
    let kids = children_of(nodes, i);
    aligns_upto(nodes, kids, kids.len() as int)
}

fn aligns_from_row(nodes: &Vec<SyntaxNode>, i: usize) -> (r: Vec<Align>)
    requires
        is_walk(depths_of(nodes@)),
        i < nodes@.len(),
    ensures
        r@ == aligns_of(nodes@, i as int),
{
    let n = nodes.len();
    proof {
        lemma_depth_bound(nodes@, i as int);
    }
    let kids = children(nodes, i);
    let mut r: Vec<Align> = Vec::new();
    let mut k: usize = 0;
    while k < kids.len()
        invariant
            n == nodes@.len(),
            is_walk(depths_of(nodes@)),
            k <= kids@.len(),
            lists(kids@, children_of(nodes@, i as int)),
            forall|x: int| 0 <= x < kids@.len() ==> (#[trigger] kids@[x]) < nodes@.len(),
            r@ == aligns_upto(nodes@, children_of(nodes@, i as int), k as int),
        decreases kids@.len() - k,
    {
        proof {
            lemma_depth_bound(nodes@, kids@[k as int] as int);
        }
        if nodes[kids[k]].kind == NodeKind::PipeTableDelimiterCell {
            r.push(align_from_delimiter_cell(nodes, kids[k]));
        }
        k += 1;
    }
    r
}

// ---------------------------------------------------------------------------
// Raw rows
// ---------------------------------------------------------------------------

/// The unescaped pipes from byte `i` on, before `end`.
pub open spec fn pipes_from(bytes: Seq<u8>, i: int, end: int) -> Seq<int>
    decreases end - i + 2,
{
    if i >= end {
        seq![]
    } else if bytes[i] == 0x5c {
        pipes_from(bytes, i + 2, end)
    } else if bytes[i] == 0x7c {
        seq![i] + pipes_from(bytes, i + 1, end)
    } else {
        pipes_from(bytes, i + 1, end)
    }
}

/// The spans between the pipes `ps`, with the text before the first and after the
/// last of them.
pub open spec fn spans(ps: Seq<int>, start: int, end: int) -> Seq<(int, int)>
    decreases ps.len(),
{
    if ps.len() == 0 {
        seq![(start, end)]
    } else {
        seq![(start, ps[0])] + spans(ps.drop_first(), ps[0] + 1, end)
    }
}

/// The range holds nothing but blanks.
pub open spec fn is_blank_cell(bytes: Seq<u8>, s: (int, int)) -> bool {
    let t = trimmed_cell(bytes, s.0, s.1);
    t.0 >= t.1
}

/// The spans that are cells: a blank first or last span is the outside of a border
/// pipe, unless it is the only one.
pub open spec fn inner_spans(bytes: Seq<u8>, ss: Seq<(int, int)>) -> Seq<(int, int)> {
    if ss.len() <= 1 {
        ss
    } else {
        let a = if is_blank_cell(bytes, ss[0]) {
            ss.drop_first()
        } else {
            ss
        };
        if is_blank_cell(bytes, a.last()) {
            a.drop_last()
        } else {
            a
        }
    }
}

/// The row that a raw line is.
pub open spec fn raw_row(bytes: Seq<u8>, start: int, end: int) -> RowView {
    RowView {
        line: (start, end),
        cells: inner_spans(bytes, spans(pipes_from(bytes, start, end), start, end)).map_values(
            |s: (int, int)| trimmed_cell(bytes, s.0, s.1),
        ),
    }
}

/// Every span has at least one.
proof fn lemma_spans_nonempty(ps: Seq<int>, start: int, end: int)
    ensures
        spans(ps, start, end).len() == ps.len() + 1,
    decreases ps.len(),
{
    if ps.len() > 0 {
        lemma_spans_nonempty(ps.drop_first(), ps[0] + 1, end);
    }
}

spec fn span_view(v: Seq<(usize, usize)>) -> Seq<(int, int)> {
    v.map_values(|s: (usize, usize)| (s.0 as int, s.1 as int))
}

/// Parse a raw table-row line (`| a | b | c |`) into cells, for rows the parser dropped
/// (see the healing in [`extract_table`]). Cells are the spans between consecutive
/// unescaped `|`; the outer leading/trailing pipes are optional borders, so `1 | 2` is
/// two cells, while `| | b |` keeps its empty first cell. `start`/`end` are the line's
/// buffer byte range (excluding the trailing newline).
pub fn row_from_raw_line(rope: &ropey::Rope, start: usize, end: usize) -> (r: TableRow)
    requires
        start <= end <= rope_bytes(*rope).len(),
    ensures
        r@ == raw_row(rope_bytes(*rope), start as int, end as int),
{
    let ghost bytes = rope_bytes(*rope);
    let ghost all = spans(pipes_from(bytes, start as int, end as int), start as int, end as int);
    let len = rope_len(rope);
    let mut segments: Vec<(usize, usize)> = Vec::new();
    let mut seg_start: usize = start;
    let mut i: usize = start;
    assert(span_view(segments@) + all =~= all);
    while i < end
        invariant
            bytes == rope_bytes(*rope),
            len == bytes.len(),
            end <= len,
            i <= end || i == end + 1,
            i <= usize::MAX,
            all == span_view(segments@) + spans(
                pipes_from(bytes, i as int, end as int),
                seg_start as int,
                end as int,
            ),
        decreases end - i,
    {
        let b = rope_byte(rope, i).unwrap();
        if b == 0x5c {
            if end - i < 2 {
                // A lone backslash at the end of the line escapes nothing.
                proof {
                    assert(pipes_from(bytes, i + 2, end as int) =~= Seq::<int>::empty());
                    assert(pipes_from(bytes, end as int, end as int) =~= Seq::<int>::empty());
                }
                i = end;
            } else {
                i += 2;
            }
        } else if b == 0x7c {
            proof {
                let ps = pipes_from(bytes, i as int, end as int);
                assert(ps.drop_first() =~= pipes_from(bytes, i + 1, end as int));
                assert(ps[0] == i);
                assert(span_view(segments@.push((seg_start, i))) =~= span_view(segments@).push(
                    (seg_start as int, i as int),
                ));
                assert(span_view(segments@) + spans(ps, seg_start as int, end as int) =~= span_view(
                    segments@.push((seg_start, i)),
                ) + spans(ps.drop_first(), i + 1, end as int));
            }
            segments.push((seg_start, i));
            seg_start = i + 1;
            i += 1;
        } else {
            i += 1;
        }
    }
    proof {
        assert(pipes_from(bytes, i as int, end as int) =~= Seq::<int>::empty());
        assert(span_view(segments@.push((seg_start, end))) =~= all);
    }
    segments.push((seg_start, end));
    proof {
        lemma_spans_nonempty(
            pipes_from(bytes, start as int, end as int),
            start as int,
            end as int,
        );
    }
    if segments.len() > 1 {
        let first = trim_cell_range(rope, segments[0].0, segments[0].1);
        assert(all[0] == (segments@[0].0 as int, segments@[0].1 as int));
        if first.start >= first.end {
            let ghost before = segments@;
            segments.remove(0);
            assert(span_view(segments@) =~= all.drop_first());
        }
        let ghost kept = span_view(segments@);
        let (s, e) = segments[segments.len() - 1];
        assert(kept.last() == (s as int, e as int));
        let last = trim_cell_range(rope, s, e);
        if last.start >= last.end {
            segments.pop();
            assert(span_view(segments@) =~= kept.drop_last());
        }
    }
    assert(span_view(segments@) == inner_spans(bytes, all));
    let mut cells: Vec<TableCell> = Vec::new();
    let mut k: usize = 0;
    while k < segments.len()
        invariant
            bytes == rope_bytes(*rope),
            k <= segments@.len(),
            cells@.len() == k,
            forall|x: int|
                0 <= x < k ==> pair((#[trigger] cells@[x]).content) == trimmed_cell(
                    bytes,
                    segments@[x].0 as int,
                    segments@[x].1 as int,
                ),
        decreases segments@.len() - k,
    {
        let (s, e) = segments[k];
        cells.push(TableCell { content: trim_cell_range(rope, s, e) });
        k += 1;
    }
    let row = TableRow { line: start..end, cells };
    proof {
        let want = raw_row(bytes, start as int, end as int).cells;
        assert(row@.cells.len() == want.len());
        assert forall|x: int| 0 <= x < want.len() implies row@.cells[x] == want[x] by {
            assert(inner_spans(bytes, all)[x] == (segments@[x].0 as int, segments@[x].1 as int));
        }
        assert(row@.cells =~= want);
    }
    row
}

// ---------------------------------------------------------------------------
// Tables
// ---------------------------------------------------------------------------

/// What the children of a table node give.
pub struct Parts {
    pub header: Option<RowView>,
    pub delimiter: Option<(int, int)>,
    pub aligns: Seq<Align>,
    pub body: Seq<RowView>,
}

/// What the children `kids[..k]` of a table node give: the last header and the last
/// delimiter row count, and every row in order.
pub open spec fn parts_upto(nodes: Seq<SyntaxNode>, bytes: Seq<u8>, kids: Seq<int>, k: int) -> Parts
    decreases k,
{
    if k <= 0 {
        Parts { header: None, delimiter: None, aligns: seq![], body: seq![] }
    } else {
        let p = parts_upto(nodes, bytes, kids, k - 1);
        let i = kids[k - 1];
        let n = nodes[i];
        if n.kind == NodeKind::PipeTableHeader {
            Parts { header: Some(row_of(nodes, bytes, i)), ..p }
        } else if n.kind == NodeKind::PipeTableDelimiterRow {
            Parts {
                delimiter: Some((n.start as int, n.end as int)),
                aligns: aligns_of(nodes, i),
                ..p
            }
        } else if n.kind == NodeKind::PipeTableRow {
            Parts { body: p.body.push(row_of(nodes, bytes, i)), ..p }
        } else {
            p
        }
    }
}

/// Where line `l` starts; the end of the text for the line after the last.
pub open spec fn line_start(bytes: Seq<u8>, l: int) -> int {
    if l >= line_count(bytes) {
        bytes.len() as int
    } else {
        choose|s: int| starts_line(bytes, l, s)
    }
}

/// Some byte in `s..e` is a pipe.
pub open spec fn has_pipe(bytes: Seq<u8>, s: int, e: int) -> bool {
    exists|i: int| s <= i < e && #[trigger] bytes[i] == 0x7c
}

/// Line `l` without its line feed, as (start, end).
pub open spec fn line_content(bytes: Seq<u8>, l: int) -> (int, int) {
    let s = line_start(bytes, l);
    let e = line_start(bytes, l + 1);
    if e > s && bytes[e - 1] == 0x0a {
        (s, e - 1)
    } else {
        (s, e)
    }
}

/// The lines from `l` on that still look like table rows: they run up to the first
/// line without a pipe.
pub open spec fn healed_rows(bytes: Seq<u8>, l: int) -> Seq<RowView>
    decreases line_count(bytes) - l,
{
    if l < 0 || l >= line_count(bytes) || !has_pipe(
        bytes,
        line_start(bytes, l),
        line_start(bytes, l + 1),
    ) {
        seq![]
    } else {
        let c = line_content(bytes, l);
        seq![raw_row(bytes, c.0, c.1)] + healed_rows(bytes, l + 1)
    }
}

/// The largest number of cells in a row, starting from `n`.
pub open spec fn widest(rows: Seq<RowView>, n: int) -> int
    decreases rows.len(),
{
    if rows.len() == 0 {
        n
    } else {
        let m = widest(rows.drop_last(), n);
        if rows.last().cells.len() > m {
            rows.last().cells.len() as int
        } else {
            m
        }
    }
}

/// The table that node `i` stands for. The block starts where the header's line
/// starts. Rows that the parser dropped are recovered from the lines after the last
/// row: those that hold a pipe, up to the first that holds none.
pub open spec fn table_of(nodes: Seq<SyntaxNode>, bytes: Seq<u8>, i: int) -> Option<TableView> {
    let kids = children_of(nodes, i);
    let p = parts_upto(nodes, bytes, kids, kids.len() as int);
    if nodes[i].kind != NodeKind::PipeTable {
        None
    } else if p.header is None || p.delimiter is None {
        None
    } else {
        let header = p.header->Some_0;
        let delimiter = p.delimiter->Some_0;
        let last = if p.body.len() > 0 {
            p.body.last().line.0
        } else {
            delimiter.0
        };
        let healed = healed_rows(bytes, line_of(bytes, last) + 1);
        let body = p.body + healed;
        Some(
            TableView {
                block: (
                    line_start(bytes, line_of(bytes, header.line.0)),
                    if healed.len() > 0 {
                        healed.last().line.1
                    } else {
                        nodes[i].end as int
                    },
                ),
                header,
                delimiter_line: delimiter,
                aligns: p.aligns,
                body,
                ncols: widest(body, header.cells.len() as int),
            },
        )
    }
}

/// The start of a line is unique.
pub proof fn lemma_line_start(bytes: Seq<u8>, l: int, s: int)
    requires
        starts_line(bytes, l, s),
    ensures
        l < line_count(bytes),
        line_start(bytes, l) == s,
{
    lemma_line_of_monotone(bytes, s, bytes.len() as int);
    let t = choose|t: int| starts_line(bytes, l, t);
    assert(starts_line(bytes, l, t));
    if s < t {
        lemma_line_of_monotone(bytes, s, t - 1);
        assert(line_of(bytes, t) == line_of(bytes, t - 1) + 1);
    } else if t < s {
        lemma_line_of_monotone(bytes, t, s - 1);
        assert(line_of(bytes, s) == line_of(bytes, s - 1) + 1);
    }
}

/// Every line starts somewhere, and later lines start later.
pub proof fn lemma_lines_in_order(bytes: Seq<u8>, l: int)
    requires
        0 <= l < line_count(bytes),
    ensures
        0 <= line_start(bytes, l) <= line_start(bytes, l + 1) <= bytes.len(),
        starts_line(bytes, l, line_start(bytes, l)),
{
    lemma_line_exists(bytes, l, bytes.len() as int);
    if l + 1 < line_count(bytes) {
        lemma_line_exists(bytes, l + 1, bytes.len() as int);
        let s = line_start(bytes, l);
        let t = line_start(bytes, l + 1);
        if t < s {
            lemma_line_of_monotone(bytes, t, s);
        }
    }
}

proof fn lemma_line_exists(bytes: Seq<u8>, l: int, upto: int)
    requires
        0 <= upto <= bytes.len(),
        0 <= l <= line_of(bytes, upto),
    ensures
        exists|s: int| starts_line(bytes, l, s),
    decreases upto,
{
    if upto == 0 {
        assert(starts_line(bytes, l, 0));
    } else if l <= line_of(bytes, upto - 1) {
        lemma_line_exists(bytes, l, upto - 1);
    } else {
        assert(starts_line(bytes, l, upto));
    }
}

/// Where line `l` starts; the end of the text for the line after the last.
fn start_of_line(rope: &ropey::Rope, l: usize) -> (r: usize)
    ensures
        r == line_start(rope_bytes(*rope), l as int),
{
    if l < rope_line_count(rope) {
        let s = rope_line_to_byte(rope, l);
        proof {
            lemma_line_start(rope_bytes(*rope), l as int, s as int);
        }
        s
    } else {
        rope_len(rope)
    }
}

/// Whether some byte in `s..e` is a pipe.
fn any_pipe(rope: &ropey::Rope, s: usize, e: usize) -> (r: bool)
    requires
        e <= rope_bytes(*rope).len(),
    ensures
        r == has_pipe(rope_bytes(*rope), s as int, e as int),
{
    let mut i: usize = s;
    while i < e
        invariant
            s <= i,
            e <= rope_bytes(*rope).len(),
            forall|k: int| s <= k < i ==> (#[trigger] rope_bytes(*rope)[k]) != 0x7c,
        decreases e - i,
    {
        if rope_byte(rope, i) == Some(0x7cu8) {
            assert(rope_bytes(*rope)[i as int] == 0x7c);
            return true;
        }
        i += 1;
    }
    false
}

/// The rows recovered from line `from` on.
fn heal_rows(rope: &ropey::Rope, from: usize) -> (r: Vec<TableRow>)
    requires
        from <= line_count(rope_bytes(*rope)),
    ensures
        r@.map_values(|r: TableRow| r@) == healed_rows(rope_bytes(*rope), from as int),
        r@.len() > 0 ==> r@.last().line.start <= r@.last().line.end <= rope_bytes(*rope).len(),
{
    let ghost bytes = rope_bytes(*rope);
    let ghost all = healed_rows(bytes, from as int);
    let count = rope_line_count(rope);
    let mut rows: Vec<TableRow> = Vec::new();
    let mut l: usize = from;
    assert(rows@.map_values(|r: TableRow| r@) + all =~= all);
    while l < count
        invariant
            bytes == rope_bytes(*rope),
            all == healed_rows(bytes, from as int),
            count == line_count(bytes),
            l <= count,
            rows@.map_values(|r: TableRow| r@) + healed_rows(bytes, l as int) == all,
            rows@.len() > 0 ==> rows@.last().line.start <= rows@.last().line.end <= bytes.len(),
        decreases count - l,
    {
        proof {
            lemma_lines_in_order(bytes, l as int);
        }
        let ls = start_of_line(rope, l);
        let le = start_of_line(rope, l + 1);
        if !any_pipe(rope, ls, le) {
            assert(healed_rows(bytes, l as int) =~= Seq::<RowView>::empty());
            assert(rows@.map_values(|r: TableRow| r@) =~= all);
            return rows;
        }
        let content_end = if le > ls && rope_byte(rope, le - 1) == Some(0x0au8) {
            le - 1
        } else {
            le
        };
        let row = row_from_raw_line(rope, ls, content_end);
        let ghost before = rows@.map_values(|r: TableRow| r@);
        rows.push(row);
        proof {
            assert(rows@.map_values(|r: TableRow| r@) =~= before.push(row@));
            assert(rows@.map_values(|r: TableRow| r@) + healed_rows(bytes, l + 1) =~= before
                + healed_rows(bytes, l as int));
            assert(row@.line == pair(row.line));
        }
        l += 1;
    }
    assert(healed_rows(bytes, l as int) =~= Seq::<RowView>::empty());
    assert(rows@.map_values(|r: TableRow| r@) =~= all);
    rows
}

/// Extract a [`TableInfo`] from the `pipe_table` node with index `i`. Returns `None` if
/// it is no table node or its structure is malformed (missing header or delimiter row).
///
/// The block is anchored to the header's line start, not to the node's start: after an
/// all-empty row the parser can extend a following table's node *backwards* over the
/// rows it could not read. Such a row (`|  |  |  |`) also makes it drop rows; they are
/// recovered by scanning the lines after the parsed table and re-attaching those that
/// still look like table rows.
pub fn extract_table(nodes: &Vec<SyntaxNode>, i: usize, rope: &ropey::Rope) -> (r: Option<
    TableInfo,
>)
    requires
        tree_fits(nodes@, rope_bytes(*rope)),
        i < nodes@.len(),
    ensures
        match r {
            Some(t) => table_of(nodes@, rope_bytes(*rope), i as int) == Some(t@),
            None => table_of(nodes@, rope_bytes(*rope), i as int) is None,
        },
{
    let ghost bytes = rope_bytes(*rope);
    let ghost kids_of = children_of(nodes@, i as int);
    if nodes[i].kind != NodeKind::PipeTable {
        return None;
    }
    let n = nodes.len();
    proof {
        lemma_depth_bound(nodes@, i as int);
    }
    let kids = children(nodes, i);
    let mut header: Option<TableRow> = None;
    let mut delimiter_line: Option<Range<usize>> = None;
    let mut aligns: Vec<Align> = Vec::new();
    let mut body: Vec<TableRow> = Vec::new();
    let mut k: usize = 0;
    assert(body@.map_values(|r: TableRow| r@) =~= Seq::<RowView>::empty());
    while k < kids.len()
        invariant
            n == nodes@.len(),
            bytes == rope_bytes(*rope),
            is_walk(depths_of(nodes@)),
            forall|x: int| 0 <= x < nodes@.len() ==> node_fits(#[trigger] nodes@[x], bytes),
            kids_of == children_of(nodes@, i as int),
            k <= kids@.len(),
            lists(kids@, kids_of),
            forall|x: int| 0 <= x < kids@.len() ==> (#[trigger] kids@[x]) < nodes@.len(),
            ({
                let p = parts_upto(nodes@, bytes, kids_of, k as int);
                &&& p.header == (match header {
                    Some(h) => Some(h@),
                    None => None,
                })
                &&& p.delimiter == (match delimiter_line {
                    Some(d) => Some(pair(d)),
                    None => None,
                })
                &&& p.aligns == aligns@
                &&& p.body == body@.map_values(|r: TableRow| r@)
            }),
            header matches Some(h) ==> h.line.start <= bytes.len(),
            delimiter_line matches Some(d) ==> d.start <= bytes.len(),
            forall|x: int|
                0 <= x < body@.len() ==> (#[trigger] body@[x]).line.start <= bytes.len(),
        decreases kids@.len() - k,
    {
        let c = kids[k];
        let child = nodes[c];
        proof {
            lemma_depth_bound(nodes@, c as int);
            assert(node_fits(nodes@[c as int], bytes));
        }
        if child.kind == NodeKind::PipeTableHeader {
            let row = row_from_node(nodes, c, rope);
            assert(row@.line == pair(row.line));
            header = Some(row);
        } else if child.kind == NodeKind::PipeTableDelimiterRow {
            delimiter_line = Some(child.start..child.end);
            aligns = aligns_from_row(nodes, c);
        } else if child.kind == NodeKind::PipeTableRow {
            let row = row_from_node(nodes, c, rope);
            assert(row@.line == pair(row.line));
            let ghost before = body@;
            body.push(row);
            assert(body@.map_values(|r: TableRow| r@) =~= before.map_values(
                |r: TableRow| r@,
            ).push(row@));
        }
        k += 1;
    }
    let header = match header {
        Some(h) => h,
        None => {
            return None;
        },
    };
    let delimiter_line = match delimiter_line {
        Some(d) => d,
        None => {
            return None;
        },
    };
    let header_line = rope_byte_to_line(rope, header.line.start);
    let block_start = start_of_line(rope, header_line);
    let last = if body.len() > 0 {
        body[body.len() - 1].line.start
    } else {
        delimiter_line.start
    };
    proof {
        lemma_line_of_monotone(bytes, last as int, bytes.len() as int);
        lemma_line_of_monotone(bytes, header.line.start as int, bytes.len() as int);
        if body@.len() > 0 {
            assert(body@.map_values(|r: TableRow| r@).last() == body@.last()@);
        }
        assert(header@.line == pair(header.line));
    }
    let line_total = rope_line_count(rope);
    let last_line = rope_byte_to_line(rope, last);
    let mut healed = heal_rows(rope, last_line + 1);
    let block_end = if healed.len() > 0 {
        healed[healed.len() - 1].line.end
    } else {
        nodes[i].end
    };
    let ghost parsed_body = body@.map_values(|r: TableRow| r@);
    let ghost healed_view = healed@.map_values(|r: TableRow| r@);
    proof {
        if healed@.len() > 0 {
            assert(healed_view.last() == healed@.last()@);
        }
    }
    body.append(&mut healed);
    assert(body@.map_values(|r: TableRow| r@) =~= parsed_body + healed_view);
    let ghost rows = body@.map_values(|r: TableRow| r@);
    let mut ncols: usize = header.cells.len();
    let mut j: usize = 0;
    assert(rows.subrange(0, 0) =~= Seq::<RowView>::empty());
    while j < body.len()
        invariant
            j <= body@.len(),
            rows == body@.map_values(|r: TableRow| r@),
            ncols == widest(rows.subrange(0, j as int), header@.cells.len() as int),
        decreases body@.len() - j,
    {
        let m = body[j].cells.len();
        proof {
            let upto = rows.subrange(0, j + 1);
            assert(upto.drop_last() =~= rows.subrange(0, j as int));
            assert(upto.last() == body@[j as int]@);
        }
        if m > ncols {
            ncols = m;
        }
        j += 1;
    }
    assert(rows.subrange(0, j as int) =~= rows);
    Some(
        TableInfo {
            block: block_start..block_end,
            header,
            delimiter_line,
            aligns,
            body,
            ncols,
        },
    )
}

proof fn lemma_line_starts_in_order(bytes: Seq<u8>, l: int, m: int)
    requires
        0 <= l <= m < line_count(bytes),
    ensures
        line_start(bytes, l) <= line_start(bytes, m),
    decreases m - l,
{
    lemma_lines_in_order(bytes, l);
    if l < m {
        lemma_line_starts_in_order(bytes, l + 1, m);
    }
}

/// The header that counts is a child of its table.
proof fn lemma_header(nodes: Seq<SyntaxNode>, bytes: Seq<u8>, kids: Seq<int>, k: int) -> (h: int)
    requires
        0 <= k <= kids.len(),
        parts_upto(nodes, bytes, kids, k).header is Some,
    ensures
        kids.contains(h),
        parts_upto(nodes, bytes, kids, k).header == Some(row_of(nodes, bytes, h)),
    decreases k,
{
    if k <= 0 {
        0
    } else if nodes[kids[k - 1]].kind == NodeKind::PipeTableHeader {
        kids[k - 1]
    } else {
        lemma_header(nodes, bytes, kids, k - 1)
    }
}

/// The start of a later table is not before that of an earlier one, unless it is inside
/// it.
pub proof fn lemma_tables_in_order(nodes: Seq<SyntaxNode>, bytes: Seq<u8>, i: int, j: int)
    requires
        tree_fits(nodes, bytes),
        0 <= i < j < nodes.len(),
        subtree_end(depths_of(nodes), i) <= j,
        table_of(nodes, bytes, i) is Some,
        table_of(nodes, bytes, j) is Some,
    ensures
        table_of(nodes, bytes, i)->Some_0.block.0 <= table_of(nodes, bytes, j)->Some_0.block.0,
{
    lemma_children(nodes, i);
    lemma_children(nodes, j);
    let ki = children_of(nodes, i);
    let kj = children_of(nodes, j);
    let a = lemma_header(nodes, bytes, ki, ki.len() as int);
    let b = lemma_header(nodes, bytes, kj, kj.len() as int);
    let x = choose|x: int| 0 <= x < ki.len() && ki[x] == a;
    let y = choose|y: int| 0 <= y < kj.len() && kj[y] == b;
    assert(ki[x] == a && kj[y] == b);
    assert(nodes[a].start <= nodes[b].start);
    assert(node_fits(nodes[b], bytes));
    lemma_line_of_monotone(bytes, nodes[a].start as int, nodes[b].start as int);
    lemma_line_of_monotone(bytes, nodes[b].start as int, bytes.len() as int);
    lemma_line_starts_in_order(
        bytes,
        line_of(bytes, nodes[a].start as int),
        line_of(bytes, nodes[b].start as int),
    );
}

// ---------------------------------------------------------------------------
// Laws
// ---------------------------------------------------------------------------

/// Space, tab, line feed, form feed and carriage return.
pub open spec fn is_gap(b: u8) -> bool {
    b == 0x20 || b == 0x09 || b == 0x0a || b == 0x0c || b == 0x0d
}

/// The text of a cell is what is left of its range without the blanks at both ends; one that
/// holds nothing else is empty.
pub proof fn law_cells_are_trimmed(bytes: Seq<u8>, s: int, a: int, b: int, e: int)
    requires
        0 <= s <= a <= b <= e <= bytes.len(),
        forall|i: int| s <= i < a ==> is_gap(#[trigger] bytes[i]),
        forall|i: int| b <= i < e ==> is_gap(#[trigger] bytes[i]),
        a < b ==> !is_gap(bytes[a]) && !is_gap(bytes[b - 1]),
    ensures
        a < b ==> trimmed_cell(bytes, s, e) == (a, b) && !is_blank_cell(bytes, (s, e)),
        a == b ==> trimmed_cell(bytes, s, e).0 == trimmed_cell(bytes, s, e).1 && is_blank_cell(
            bytes,
            (s, e),
        ),
{
    if a < b {
        lemma_skip_gap(bytes, s, a, e);
        lemma_skip_gap_back(bytes, a, b, e);
    } else {
        assert forall|i: int| s <= i < e implies is_gap(#[trigger] bytes[i]) by {
            if i >= a {
            }
        }
        lemma_skip_gap(bytes, s, e, e);
    }
}

proof fn lemma_skip_gap(bytes: Seq<u8>, s: int, a: int, e: int)
    requires
        0 <= s <= a <= e <= bytes.len(),
        forall|i: int| s <= i < a ==> is_gap(#[trigger] bytes[i]),
        a < e ==> !is_gap(bytes[a]),
    ensures
        skip_blank(bytes, s, e) == a,
    decreases a - s,
{
    if s < a {
        assert(is_gap(bytes[s]));
        lemma_skip_gap(bytes, s + 1, a, e);
    }
}

proof fn lemma_skip_gap_back(bytes: Seq<u8>, s: int, b: int, e: int)
    requires
        0 <= s < b <= e <= bytes.len(),
        forall|i: int| b <= i < e ==> is_gap(#[trigger] bytes[i]),
        !is_gap(bytes[b - 1]),
    ensures
        skip_blank_back(bytes, s, e) == b,
    decreases e - b,
{
    if b < e {
        assert(is_gap(bytes[e - 1]));
        lemma_skip_gap_back(bytes, s, b, e - 1);
    }
}

/// A column is centered where its delimiter cell has marks on both sides, to the right where
/// it has one on the right only, and to the left otherwise.
pub proof fn law_alignments(nodes: Seq<SyntaxNode>, i: int, x: int, y: int)
    ensures
        ({
            let kids = children_of(nodes, i);
            let none = |k: NodeKind|
                forall|z: int| 0 <= z < kids.len() ==> nodes[#[trigger] kids[z]].kind != k;
            let has_left = 0 <= x < kids.len() && nodes[kids[x]].kind
                == NodeKind::PipeTableAlignLeft;
            let has_right = 0 <= y < kids.len() && nodes[kids[y]].kind
                == NodeKind::PipeTableAlignRight;
            &&& has_left && has_right ==> align_of(nodes, i) == Align::Center
            &&& has_right && none(NodeKind::PipeTableAlignLeft) ==> align_of(nodes, i)
                == Align::Right
            &&& has_left && none(NodeKind::PipeTableAlignRight) ==> align_of(nodes, i)
                == Align::Left
            &&& none(NodeKind::PipeTableAlignLeft) && none(NodeKind::PipeTableAlignRight)
                ==> align_of(nodes, i) == Align::Left
        }),
{
    let kids = children_of(nodes, i);
    if 0 <= x < kids.len() && nodes[kids[x]].kind == NodeKind::PipeTableAlignLeft {
        assert(has_child(nodes, i, NodeKind::PipeTableAlignLeft));
    }
    if 0 <= y < kids.len() && nodes[kids[y]].kind == NodeKind::PipeTableAlignRight {
        assert(has_child(nodes, i, NodeKind::PipeTableAlignRight));
    }
}

/// A range of a line holds no pipe and no backslash.
pub open spec fn no_pipe(bytes: Seq<u8>, s: int, e: int) -> bool {
    forall|i: int| s <= i < e ==> #[trigger] bytes[i] != 0x7c && bytes[i] != 0x5c
}

/// A line of text is cut at its pipes. One without a pipe is one cell; text before and behind
/// a pipe are two; a pipe at each end is a border, which leaves the cell between them. An
/// escaped pipe cuts nothing.
pub proof fn law_lines_are_cut(bytes: Seq<u8>, s: int, p: int, e: int)
    requires
        0 <= s <= p < e <= bytes.len(),
    ensures
        no_pipe(bytes, s, e) ==> raw_row(bytes, s, e).cells == seq![trimmed_cell(bytes, s, e)],
        no_pipe(bytes, s, p) && bytes[p] == '|' as u8 && no_pipe(bytes, p + 1, e)
            && !is_blank_cell(bytes, (s, p)) && !is_blank_cell(bytes, (p + 1, e)) ==> raw_row(
            bytes,
            s,
            e,
        ).cells == seq![trimmed_cell(bytes, s, p), trimmed_cell(bytes, p + 1, e)],
        s < p && p == e - 1 && bytes[s] == '|' as u8 && no_pipe(bytes, s + 1, p) && bytes[p]
            == '|' as u8 && !is_blank_cell(bytes, (s + 1, p)) ==> raw_row(bytes, s, e).cells
            == seq![trimmed_cell(bytes, s + 1, p)],
        no_pipe(bytes, s, p) && bytes[p] == '\\' as u8 && p + 1 < e && no_pipe(bytes, p + 2, e)
            ==> raw_row(bytes, s, e).cells == seq![trimmed_cell(bytes, s, e)],
        raw_row(bytes, s, e).line == (s, e),
{
    assert('|' as u8 == 0x7c && '\\' as u8 == 0x5c);
    let f = |x: (int, int)| trimmed_cell(bytes, x.0, x.1);
    assert(spans(seq![], s, e) =~= seq![(s, e)]);
    assert(seq![(s, e)].map_values(f) =~= seq![trimmed_cell(bytes, s, e)]);
    if no_pipe(bytes, s, e) {
        lemma_no_pipes(bytes, s, e, e);
    }
    if no_pipe(bytes, s, p) && bytes[p] == 0x7c && no_pipe(bytes, p + 1, e) {
        lemma_no_pipes(bytes, s, p, e);
        lemma_no_pipes(bytes, p + 1, e, e);
        let ps = seq![p] + pipes_from(bytes, p + 1, e);
        assert(ps =~= seq![p]);
        assert(ps.drop_first() =~= seq![]);
        let ss = spans(ps, s, e);
        lemma_one_pipe(p, s, e);
        if !is_blank_cell(bytes, (s, p)) && !is_blank_cell(bytes, (p + 1, e)) {
            assert(inner_spans(bytes, ss) == ss);
            assert(ss.map_values(f) =~= seq![
                trimmed_cell(bytes, s, p),
                trimmed_cell(bytes, p + 1, e),
            ]);
        }
    }
    if s < p && p == e - 1 && bytes[s] == 0x7c && no_pipe(bytes, s + 1, p) && bytes[p] == 0x7c
        && !is_blank_cell(bytes, (s + 1, p)) {
        lemma_no_pipes(bytes, s + 1, p, e);
        assert(pipes_from(bytes, p + 1, e) =~= seq![]);
        assert(pipes_from(bytes, p, e) =~= seq![p]);
        let ps = seq![s] + pipes_from(bytes, s + 1, e);
        assert(ps =~= seq![s, p]);
        assert(ps.drop_first() =~= seq![p]);
        assert(seq![p].drop_first() =~= seq![]);
        let ss = spans(ps, s, e);
        lemma_one_pipe(p, s + 1, e);
        assert(ss =~= seq![(s, s), (s + 1, p), (e, e)]);
        assert(is_blank_cell(bytes, (s, s)));
        assert(is_blank_cell(bytes, (e, e)));
        assert(inner_spans(bytes, ss) =~= seq![(s + 1, p)]);
        assert(seq![(s + 1, p)].map_values(f) =~= seq![trimmed_cell(bytes, s + 1, p)]);
    }
    if no_pipe(bytes, s, p) && bytes[p] == 0x5c && p + 1 < e && no_pipe(bytes, p + 2, e) {
        lemma_no_pipes(bytes, s, p, e);
        lemma_no_pipes(bytes, p + 2, e, e);
    }
}

proof fn lemma_one_pipe(p: int, s: int, e: int)
    ensures
        spans(seq![p], s, e) == seq![(s, p), (p + 1, e)],
{
    let none = Seq::<int>::empty();
    assert(seq![p].drop_first() =~= none);
    assert(spans(none, p + 1, e) =~= seq![(p + 1, e)]);
    assert(spans(seq![p], s, e) =~= seq![(s, p)] + seq![(p + 1, e)]);
}

proof fn lemma_no_pipes(bytes: Seq<u8>, s: int, to: int, e: int)
    requires
        0 <= s <= to <= e <= bytes.len(),
        no_pipe(bytes, s, to),
    ensures
        pipes_from(bytes, s, e) == pipes_from(bytes, to, e),
    decreases to - s,
{
    if s < to {
        assert(bytes[s] != 0x7c && bytes[s] != 0x5c);
        lemma_no_pipes(bytes, s + 1, to, e);
    }
}

/// A blank cell between two pipes stays: only what is outside of the border pipes goes.
pub proof fn law_empty_cells_stay(bytes: Seq<u8>, s: int, p: int, e: int)
    requires
        0 <= s < p < e - 1 < bytes.len(),
        bytes[s] == '|' as u8,
        no_pipe(bytes, s + 1, p),
        bytes[p] == '|' as u8,
        no_pipe(bytes, p + 1, e - 1),
        bytes[e - 1] == '|' as u8,
    ensures
        raw_row(bytes, s, e).cells == seq![
            trimmed_cell(bytes, s + 1, p),
            trimmed_cell(bytes, p + 1, e - 1),
        ],
{
    assert('|' as u8 == 0x7c);
    let f = |x: (int, int)| trimmed_cell(bytes, x.0, x.1);
    lemma_no_pipes(bytes, s + 1, p, e);
    lemma_no_pipes(bytes, p + 1, e - 1, e);
    assert(pipes_from(bytes, e, e) =~= seq![]);
    assert(pipes_from(bytes, e - 1, e) =~= seq![e - 1]);
    assert(pipes_from(bytes, p, e) =~= seq![p, e - 1]);
    let ps = pipes_from(bytes, s, e);
    assert(ps =~= seq![s, p, e - 1]);
    assert(ps.drop_first() =~= seq![p, e - 1]);
    assert(seq![p, e - 1].drop_first() =~= seq![e - 1]);
    assert(seq![e - 1].drop_first() =~= seq![]);
    lemma_one_pipe(e - 1, p + 1, e);
    assert(spans(seq![p, e - 1], s + 1, e) =~= seq![(s + 1, p), (p + 1, e - 1), (e, e)]);
    let ss = spans(ps, s, e);
    assert(ss =~= seq![(s, s), (s + 1, p), (p + 1, e - 1), (e, e)]);
    assert(is_blank_cell(bytes, (s, s)));
    assert(is_blank_cell(bytes, (e, e)));
    assert(inner_spans(bytes, ss) =~= seq![(s + 1, p), (p + 1, e - 1)]);
    assert(inner_spans(bytes, ss).map_values(f) =~= seq![
        trimmed_cell(bytes, s + 1, p),
        trimmed_cell(bytes, p + 1, e - 1),
    ]);
}

/// The rows that were lost are the lines that follow, as long as they hold a pipe: each line
/// is read without its line feed.
pub proof fn law_lost_rows(bytes: Seq<u8>, l: int, i: int)
    requires
        0 <= l < line_count(bytes),
    ensures
        ({
            let s = line_start(bytes, l);
            let e = line_start(bytes, l + 1);
            &&& (forall|k: int| s <= k < e ==> #[trigger] bytes[k] != '|' as u8) ==> healed_rows(
                bytes,
                l,
            ).len() == 0
            &&& s <= i < e && bytes[i] == '|' as u8 ==> {
                let rows = healed_rows(bytes, l);
                &&& rows.len() > 0
                &&& rows.drop_first() == healed_rows(bytes, l + 1)
                &&& bytes[e - 1] == 0x0a ==> rows[0] == raw_row(bytes, s, e - 1)
                &&& bytes[e - 1] != 0x0a ==> rows[0] == raw_row(bytes, s, e)
            }
        }),
{
    assert('|' as u8 == 0x7c);
    let s = line_start(bytes, l);
    let e = line_start(bytes, l + 1);
    if s <= i < e && bytes[i] == 0x7c {
        assert(has_pipe(bytes, s, e));
        let rows = healed_rows(bytes, l);
        assert(rows.drop_first() =~= healed_rows(bytes, l + 1));
    }
}

/// A table is as wide as its widest row, the header among them.
pub proof fn law_tables_are_as_wide_as_their_rows(rows: Seq<RowView>, n: int)
    ensures
        n <= widest(rows, n),
        forall|i: int| 0 <= i < rows.len() ==> (#[trigger] rows[i]).cells.len() <= widest(rows, n),
        widest(rows, n) == n || exists|i: int|
            0 <= i < rows.len() && (#[trigger] rows[i]).cells.len() == widest(rows, n),
    decreases rows.len(),
{
    if rows.len() > 0 {
        let rest = rows.drop_last();
        law_tables_are_as_wide_as_their_rows(rest, n);
        assert forall|i: int| 0 <= i < rows.len() implies (#[trigger] rows[i]).cells.len()
            <= widest(rows, n) by {
            if i < rest.len() {
                assert(rest[i] == rows[i]);
            }
        }
        if widest(rows, n) != n {
            if rows.last().cells.len() > widest(rest, n) {
                assert(rows[rows.len() - 1].cells.len() == widest(rows, n));
            } else {
                let i = choose|i: int|
                    0 <= i < rest.len() && (#[trigger] rest[i]).cells.len() == widest(rest, n);
                assert(rows[i] == rest[i]);
            }
        }
    }
}

/// A table node with a header and a delimiter row is a table: it has that header and the
/// alignments of that row. One that lacks either, or a node of another kind, is none.
pub proof fn law_tables_have_a_header_and_a_delimiter(
    nodes: Seq<SyntaxNode>,
    bytes: Seq<u8>,
    i: int,
    rows: int,
)
    requires
        children_of(nodes, i).len() == 2 + rows,
        rows >= 0,
    ensures
        ({
            let kids = children_of(nodes, i);
            let t = table_of(nodes, bytes, i);
            let whole = nodes[kids[0]].kind == NodeKind::PipeTableHeader && nodes[kids[1]].kind
                == NodeKind::PipeTableDelimiterRow && forall|k: int|
                2 <= k < kids.len() ==> nodes[#[trigger] kids[k]].kind == NodeKind::PipeTableRow;
            &&& nodes[i].kind != NodeKind::PipeTable ==> t is None
            &&& (forall|k: int|
                0 <= k < kids.len() ==> nodes[#[trigger] kids[k]].kind
                    != NodeKind::PipeTableHeader) ==> t is None
            &&& (forall|k: int|
                0 <= k < kids.len() ==> nodes[#[trigger] kids[k]].kind
                    != NodeKind::PipeTableDelimiterRow) ==> t is None
            &&& nodes[i].kind == NodeKind::PipeTable && whole ==> {
                &&& t is Some
                &&& (t->0).header == row_of(nodes, bytes, kids[0])
                &&& (t->0).delimiter_line == (
                    nodes[kids[1]].start as int,
                    nodes[kids[1]].end as int,
                )
                &&& (t->0).aligns == aligns_of(nodes, kids[1])
                &&& (t->0).body.len() >= rows
                &&& forall|k: int|
                    0 <= k < rows ==> #[trigger] (t->0).body[k] == row_of(
                        nodes,
                        bytes,
                        kids[k + 2],
                    )
                &&& (t->0).ncols >= (t->0).header.cells.len()
                &&& (t->0).block.0 == line_start(
                    bytes,
                    line_of(bytes, nodes[kids[0]].start as int),
                )
                &&& (t->0).body.len() == rows ==> (t->0).block.1 == nodes[i].end
            }
        }),
{
    let kids = children_of(nodes, i);
    let n = kids.len() as int;
    lemma_parts(nodes, bytes, kids, n);
    if nodes[kids[0]].kind == NodeKind::PipeTableHeader && nodes[kids[1]].kind
        == NodeKind::PipeTableDelimiterRow && forall|k: int|
        2 <= k < kids.len() ==> nodes[#[trigger] kids[k]].kind == NodeKind::PipeTableRow {
        lemma_whole(nodes, bytes, kids, n);
        if nodes[i].kind == NodeKind::PipeTable {
            let t = table_of(nodes, bytes, i)->0;
            let p = parts_upto(nodes, bytes, kids, n);
            law_tables_are_as_wide_as_their_rows(t.body, t.header.cells.len() as int);
            assert forall|k: int| 0 <= k < rows implies #[trigger] t.body[k] == row_of(
                nodes,
                bytes,
                kids[k + 2],
            ) by {
                assert(t.body[k] == p.body[k]);
            }
        }
    }
}

proof fn lemma_parts(nodes: Seq<SyntaxNode>, bytes: Seq<u8>, kids: Seq<int>, k: int)
    requires
        0 <= k <= kids.len(),
    ensures
        (forall|j: int|
            0 <= j < k ==> nodes[#[trigger] kids[j]].kind != NodeKind::PipeTableHeader)
            ==> parts_upto(nodes, bytes, kids, k).header is None,
        (forall|j: int|
            0 <= j < k ==> nodes[#[trigger] kids[j]].kind != NodeKind::PipeTableDelimiterRow)
            ==> parts_upto(nodes, bytes, kids, k).delimiter is None,
    decreases k,
{
    if k > 0 {
        lemma_parts(nodes, bytes, kids, k - 1);
        let last = kids[k - 1];
        assert(nodes[kids[k - 1]] == nodes[last]);
    }
}

proof fn lemma_whole(nodes: Seq<SyntaxNode>, bytes: Seq<u8>, kids: Seq<int>, k: int)
    requires
        2 <= k <= kids.len(),
        nodes[kids[0]].kind == NodeKind::PipeTableHeader,
        nodes[kids[1]].kind == NodeKind::PipeTableDelimiterRow,
        forall|j: int|
            2 <= j < kids.len() ==> nodes[#[trigger] kids[j]].kind == NodeKind::PipeTableRow,
    ensures
        ({
            let p = parts_upto(nodes, bytes, kids, k);
            &&& p.header == Some(row_of(nodes, bytes, kids[0]))
            &&& p.delimiter == Some((nodes[kids[1]].start as int, nodes[kids[1]].end as int))
            &&& p.aligns == aligns_of(nodes, kids[1])
            &&& p.body.len() == k - 2
            &&& forall|j: int|
                0 <= j < k - 2 ==> #[trigger] p.body[j] == row_of(nodes, bytes, kids[j + 2])
        }),
    decreases k,
{
    if k == 2 {
        assert(parts_upto(nodes, bytes, kids, 0).body =~= seq![]);
        assert(parts_upto(nodes, bytes, kids, 1).header == Some(row_of(nodes, bytes, kids[0])));
    } else {
        lemma_whole(nodes, bytes, kids, k - 1);
    }
}

/// The cells of a row are its cell nodes, trimmed, in their order; its line is that of the
/// node.
pub proof fn law_rows_have_the_cells_of_their_nodes(
    nodes: Seq<SyntaxNode>,
    bytes: Seq<u8>,
    i: int,
    k: int,
)
    requires
        0 <= k < children_of(nodes, i).len(),
        forall|j: int|
            0 <= j < children_of(nodes, i).len() ==> nodes[#[trigger] children_of(
                nodes,
                i,
            )[j]].kind == NodeKind::PipeTableCell,
    ensures
        ({
            let kids = children_of(nodes, i);
            let row = row_of(nodes, bytes, i);
            &&& row.line == (nodes[i].start as int, nodes[i].end as int)
            &&& row.cells.len() == kids.len()
            &&& row.cells[k] == trimmed_cell(
                bytes,
                nodes[kids[k]].start as int,
                nodes[kids[k]].end as int,
            )
        }),
{
    let kids = children_of(nodes, i);
    lemma_cells(nodes, bytes, kids, kids.len() as int);
}

proof fn lemma_cells(nodes: Seq<SyntaxNode>, bytes: Seq<u8>, kids: Seq<int>, k: int)
    requires
        0 <= k <= kids.len(),
        forall|j: int|
            0 <= j < kids.len() ==> nodes[#[trigger] kids[j]].kind == NodeKind::PipeTableCell,
    ensures
        cells_upto(nodes, bytes, kids, k).len() == k,
        forall|j: int|
            0 <= j < k ==> #[trigger] cells_upto(nodes, bytes, kids, k)[j] == trimmed_cell(
                bytes,
                nodes[kids[j]].start as int,
                nodes[kids[j]].end as int,
            ),
    decreases k,
{
    if k > 0 {
        lemma_cells(nodes, bytes, kids, k - 1);
        assert(nodes[kids[k - 1]].kind == NodeKind::PipeTableCell);
    }
}

/// The alignments of a delimiter row are those of its cells, in their order.
pub proof fn law_columns_have_their_alignment(nodes: Seq<SyntaxNode>, i: int, k: int)
    requires
        0 <= k < children_of(nodes, i).len(),
        forall|j: int|
            0 <= j < children_of(nodes, i).len() ==> nodes[#[trigger] children_of(
                nodes,
                i,
            )[j]].kind == NodeKind::PipeTableDelimiterCell,
    ensures
        aligns_of(nodes, i).len() == children_of(nodes, i).len(),
        aligns_of(nodes, i)[k] == align_of(nodes, children_of(nodes, i)[k]),
{
    let kids = children_of(nodes, i);
    lemma_aligns(nodes, kids, kids.len() as int);
}

proof fn lemma_aligns(nodes: Seq<SyntaxNode>, kids: Seq<int>, k: int)
    requires
        0 <= k <= kids.len(),
        forall|j: int|
            0 <= j < kids.len() ==> nodes[#[trigger] kids[j]].kind
                == NodeKind::PipeTableDelimiterCell,
    ensures
        aligns_upto(nodes, kids, k).len() == k,
        forall|j: int|
            0 <= j < k ==> #[trigger] aligns_upto(nodes, kids, k)[j] == align_of(nodes, kids[j]),
    decreases k,
{
    if k > 0 {
        lemma_aligns(nodes, kids, k - 1);
        assert(nodes[kids[k - 1]].kind == NodeKind::PipeTableDelimiterCell);
    }
}

/// The rows that were lost are looked for from the line behind the last row on, or behind the
/// delimiter row where there is none. They come behind the other rows, and the table ends
/// where the last of them does.
pub proof fn law_lost_rows_follow_the_table(
    nodes: Seq<SyntaxNode>,
    bytes: Seq<u8>,
    i: int,
    rows: int,
)
    requires
        children_of(nodes, i).len() == 2 + rows,
        rows >= 0,
        nodes[i].kind == NodeKind::PipeTable,
        nodes[children_of(nodes, i)[0]].kind == NodeKind::PipeTableHeader,
        nodes[children_of(nodes, i)[1]].kind == NodeKind::PipeTableDelimiterRow,
        forall|k: int|
            2 <= k < children_of(nodes, i).len() ==> nodes[#[trigger] children_of(
                nodes,
                i,
            )[k]].kind == NodeKind::PipeTableRow,
    ensures
        ({
            let kids = children_of(nodes, i);
            let t = table_of(nodes, bytes, i)->0;
            let last = nodes[kids[kids.len() - 1]].start as int;
            let lost = healed_rows(bytes, line_of(bytes, last) + 1);
            &&& t.body.len() == rows + lost.len()
            &&& t.body.subrange(rows, t.body.len() as int) == lost
            &&& lost.len() > 0 ==> t.block.1 == lost.last().line.1
            &&& lost.len() == 0 ==> t.block.1 == nodes[i].end
        }),
{
    let kids = children_of(nodes, i);
    let n = kids.len() as int;
    lemma_whole(nodes, bytes, kids, n);
    let p = parts_upto(nodes, bytes, kids, n);
    let t = table_of(nodes, bytes, i)->0;
    let last = nodes[kids[n - 1]].start as int;
    let lost = healed_rows(bytes, line_of(bytes, last) + 1);
    if rows > 0 {
        assert(p.body[rows - 1] == row_of(nodes, bytes, kids[n - 1]));
        assert(p.body.last().line.0 == last);
    }
    assert(t.body == p.body + lost);
    assert(t.body.subrange(rows, t.body.len() as int) =~= lost);
}

} // verus!
