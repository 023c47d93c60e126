//! Syntax trees as plain values, and the parser that makes them.
//!
//! A tree is the list of its nodes in the order in which a walk meets them
//! (parents before children), each with its depth, kind and byte range.
use crate::text::{ends_with, has_suffix, str_eq};
use vstd::prelude::*;
use vstd::string::*;
use vstd::utf8::*;

verus! {

/// The node kinds of the markdown grammars that the crate tells apart.
#[derive(Debug, Clone, Copy, PartialEq, Eq, Structural)]
pub enum NodeKind {
    Document,
    Section,
    Paragraph,
    AtxHeading,
    List,
    ListItem,
    Inline,
    BlockQuoteMarker,
    BlockContinuation,
    ListMarkerMinus,
    ListMarkerPlus,
    ListMarkerStar,
    ListMarkerDot,
    ListMarkerParenthesis,
    TaskListMarkerUnchecked,
    TaskListMarkerChecked,
    AtxH1Marker,
    AtxH2Marker,
    AtxH3Marker,
    AtxH4Marker,
    AtxH5Marker,
    AtxH6Marker,
    ThematicBreak,
    FencedCodeBlock,
    FencedCodeBlockDelimiter,
    InfoString,
    CodeFenceContent,
    IndentedCodeBlock,
    PipeTable,
    PipeTableHeader,
    PipeTableDelimiterRow,
    PipeTableDelimiterCell,
    PipeTableRow,
    PipeTableCell,
    PipeTableAlignLeft,
    PipeTableAlignRight,
    Emphasis,
    StrongEmphasis,
    Strikethrough,
    CodeSpan,
    EmphasisDelimiter,
    CodeSpanDelimiter,
    InlineLink,
    FullReferenceLink,
    CollapsedReferenceLink,
    ShortcutLink,
    Image,
    LinkText,
    LinkDestination,
    ImageDescription,
    OpenBracket,
    CloseBracket,
    /// Any other kind whose name ends in `_delimiter`.
    OtherDelimiter,
    /// Any other kind.
    Other,
}

/// The grammar's name of a kind; `None` for the kinds that are not told apart.
pub open spec fn kind_name(k: NodeKind) -> Option<Seq<char>> {
    match k {
        NodeKind::Document => Some("document"@),
        NodeKind::Section => Some("section"@),
        NodeKind::Paragraph => Some("paragraph"@),
        NodeKind::AtxHeading => Some("atx_heading"@),
        NodeKind::List => Some("list"@),
        NodeKind::ListItem => Some("list_item"@),
        NodeKind::Inline => Some("inline"@),
        NodeKind::BlockQuoteMarker => Some("block_quote_marker"@),
        NodeKind::BlockContinuation => Some("block_continuation"@),
        NodeKind::ListMarkerMinus => Some("list_marker_minus"@),
        NodeKind::ListMarkerPlus => Some("list_marker_plus"@),
        NodeKind::ListMarkerStar => Some("list_marker_star"@),
        NodeKind::ListMarkerDot => Some("list_marker_dot"@),
        NodeKind::ListMarkerParenthesis => Some("list_marker_parenthesis"@),
        NodeKind::TaskListMarkerUnchecked => Some("task_list_marker_unchecked"@),
        NodeKind::TaskListMarkerChecked => Some("task_list_marker_checked"@),
        NodeKind::AtxH1Marker => Some("atx_h1_marker"@),
        NodeKind::AtxH2Marker => Some("atx_h2_marker"@),
        NodeKind::AtxH3Marker => Some("atx_h3_marker"@),
        NodeKind::AtxH4Marker => Some("atx_h4_marker"@),
        NodeKind::AtxH5Marker => Some("atx_h5_marker"@),
        NodeKind::AtxH6Marker => Some("atx_h6_marker"@),
        NodeKind::ThematicBreak => Some("thematic_break"@),
        NodeKind::FencedCodeBlock => Some("fenced_code_block"@),
        NodeKind::FencedCodeBlockDelimiter => Some("fenced_code_block_delimiter"@),
        NodeKind::InfoString => Some("info_string"@),
        NodeKind::CodeFenceContent => Some("code_fence_content"@),
        NodeKind::IndentedCodeBlock => Some("indented_code_block"@),
        NodeKind::PipeTable => Some("pipe_table"@),
        NodeKind::PipeTableHeader => Some("pipe_table_header"@),
        NodeKind::PipeTableDelimiterRow => Some("pipe_table_delimiter_row"@),
        NodeKind::PipeTableDelimiterCell => Some("pipe_table_delimiter_cell"@),
        NodeKind::PipeTableRow => Some("pipe_table_row"@),
        NodeKind::PipeTableCell => Some("pipe_table_cell"@),
        NodeKind::PipeTableAlignLeft => Some("pipe_table_align_left"@),
        NodeKind::PipeTableAlignRight => Some("pipe_table_align_right"@),
        NodeKind::Emphasis => Some("emphasis"@),
        NodeKind::StrongEmphasis => Some("strong_emphasis"@),
        NodeKind::Strikethrough => Some("strikethrough"@),
        NodeKind::CodeSpan => Some("code_span"@),
        NodeKind::EmphasisDelimiter => Some("emphasis_delimiter"@),
        NodeKind::CodeSpanDelimiter => Some("code_span_delimiter"@),
        NodeKind::InlineLink => Some("inline_link"@),
        NodeKind::FullReferenceLink => Some("full_reference_link"@),
        NodeKind::CollapsedReferenceLink => Some("collapsed_reference_link"@),
        NodeKind::ShortcutLink => Some("shortcut_link"@),
        NodeKind::Image => Some("image"@),
        NodeKind::LinkText => Some("link_text"@),
        NodeKind::LinkDestination => Some("link_destination"@),
        NodeKind::ImageDescription => Some("image_description"@),
        NodeKind::OpenBracket => Some("["@),
        NodeKind::CloseBracket => Some("]"@),
        NodeKind::OtherDelimiter => None,
        NodeKind::Other => None,
    }
}

/// The kinds, in the order in which [`kind_at`] lists them.
pub open spec fn kind_count() -> int {
    52
}

/// A kind by its number.
fn kind_at(i: usize) -> (r: (NodeKind, &'static str))
    requires
        i < kind_count(),
    ensures
        r.0 == spec_kind_at(i as int),
        kind_name(r.0) == Some(r.1@),
{
    if i == 0 {
        (NodeKind::Document, "document")
    } else if i == 1 {
        (NodeKind::Section, "section")
    } else if i == 2 {
        (NodeKind::Paragraph, "paragraph")
    } else if i == 3 {
        (NodeKind::AtxHeading, "atx_heading")
    } else if i == 4 {
        (NodeKind::List, "list")
    } else if i == 5 {
        (NodeKind::ListItem, "list_item")
    } else if i == 6 {
        (NodeKind::Inline, "inline")
    } else if i == 7 {
        (NodeKind::BlockQuoteMarker, "block_quote_marker")
    } else if i == 8 {
        (NodeKind::BlockContinuation, "block_continuation")
    } else if i == 9 {
        (NodeKind::ListMarkerMinus, "list_marker_minus")
    } else if i == 10 {
        (NodeKind::ListMarkerPlus, "list_marker_plus")
    } else if i == 11 {
        (NodeKind::ListMarkerStar, "list_marker_star")
    } else if i == 12 {
        (NodeKind::ListMarkerDot, "list_marker_dot")
    } else if i == 13 {
        (NodeKind::ListMarkerParenthesis, "list_marker_parenthesis")
    } else if i == 14 {
        (NodeKind::TaskListMarkerUnchecked, "task_list_marker_unchecked")
    } else if i == 15 {
        (NodeKind::TaskListMarkerChecked, "task_list_marker_checked")
    } else if i == 16 {
        (NodeKind::AtxH1Marker, "atx_h1_marker")
    } else if i == 17 {
        (NodeKind::AtxH2Marker, "atx_h2_marker")
    } else if i == 18 {
        (NodeKind::AtxH3Marker, "atx_h3_marker")
    } else if i == 19 {
        (NodeKind::AtxH4Marker, "atx_h4_marker")
    } else if i == 20 {
        (NodeKind::AtxH5Marker, "atx_h5_marker")
    } else if i == 21 {
        (NodeKind::AtxH6Marker, "atx_h6_marker")
    } else if i == 22 {
        (NodeKind::ThematicBreak, "thematic_break")
    } else if i == 23 {
        (NodeKind::FencedCodeBlock, "fenced_code_block")
    } else if i == 24 {
        (NodeKind::FencedCodeBlockDelimiter, "fenced_code_block_delimiter")
    } else if i == 25 {
        (NodeKind::InfoString, "info_string")
    } else if i == 26 {
        (NodeKind::CodeFenceContent, "code_fence_content")
    } else if i == 27 {
        (NodeKind::IndentedCodeBlock, "indented_code_block")
    } else if i == 28 {
        (NodeKind::PipeTable, "pipe_table")
    } else if i == 29 {
        (NodeKind::PipeTableHeader, "pipe_table_header")
    } else if i == 30 {
        (NodeKind::PipeTableDelimiterRow, "pipe_table_delimiter_row")
    } else if i == 31 {
        (NodeKind::PipeTableDelimiterCell, "pipe_table_delimiter_cell")
    } else if i == 32 {
        (NodeKind::PipeTableRow, "pipe_table_row")
    } else if i == 33 {
        (NodeKind::PipeTableCell, "pipe_table_cell")
    } else if i == 34 {
        (NodeKind::PipeTableAlignLeft, "pipe_table_align_left")
    } else if i == 35 {
        (NodeKind::PipeTableAlignRight, "pipe_table_align_right")
    } else if i == 36 {
        (NodeKind::Emphasis, "emphasis")
    } else if i == 37 {
        (NodeKind::StrongEmphasis, "strong_emphasis")
    } else if i == 38 {
        (NodeKind::Strikethrough, "strikethrough")
    } else if i == 39 {
        (NodeKind::CodeSpan, "code_span")
    } else if i == 40 {
        (NodeKind::EmphasisDelimiter, "emphasis_delimiter")
    } else if i == 41 {
        (NodeKind::CodeSpanDelimiter, "code_span_delimiter")
    } else if i == 42 {
        (NodeKind::InlineLink, "inline_link")
    } else if i == 43 {
        (NodeKind::FullReferenceLink, "full_reference_link")
    } else if i == 44 {
        (NodeKind::CollapsedReferenceLink, "collapsed_reference_link")
    } else if i == 45 {
        (NodeKind::ShortcutLink, "shortcut_link")
    } else if i == 46 {
        (NodeKind::Image, "image")
    } else if i == 47 {
        (NodeKind::LinkText, "link_text")
    } else if i == 48 {
        (NodeKind::LinkDestination, "link_destination")
    } else if i == 49 {
        (NodeKind::ImageDescription, "image_description")
    } else if i == 50 {
        (NodeKind::OpenBracket, "[")
    } else {
        (NodeKind::CloseBracket, "]")
    }
}

/// A kind by its number.
pub open spec fn spec_kind_at(i: int) -> NodeKind {
    if i == 0 {
        NodeKind::Document
    } else if i == 1 {
        NodeKind::Section
    } else if i == 2 {
        NodeKind::Paragraph
    } else if i == 3 {
        NodeKind::AtxHeading
    } else if i == 4 {
        NodeKind::List
    } else if i == 5 {
        NodeKind::ListItem
    } else if i == 6 {
        NodeKind::Inline
    } else if i == 7 {
        NodeKind::BlockQuoteMarker
    } else if i == 8 {
        NodeKind::BlockContinuation
    } else if i == 9 {
        NodeKind::ListMarkerMinus
    } else if i == 10 {
        NodeKind::ListMarkerPlus
    } else if i == 11 {
        NodeKind::ListMarkerStar
    } else if i == 12 {
        NodeKind::ListMarkerDot
    } else if i == 13 {
        NodeKind::ListMarkerParenthesis
    } else if i == 14 {
        NodeKind::TaskListMarkerUnchecked
    } else if i == 15 {
        NodeKind::TaskListMarkerChecked
    } else if i == 16 {
        NodeKind::AtxH1Marker
    } else if i == 17 {
        NodeKind::AtxH2Marker
    } else if i == 18 {
        NodeKind::AtxH3Marker
    } else if i == 19 {
        NodeKind::AtxH4Marker
    } else if i == 20 {
        NodeKind::AtxH5Marker
    } else if i == 21 {
        NodeKind::AtxH6Marker
    } else if i == 22 {
        NodeKind::ThematicBreak
    } else if i == 23 {
        NodeKind::FencedCodeBlock
    } else if i == 24 {
        NodeKind::FencedCodeBlockDelimiter
    } else if i == 25 {
        NodeKind::InfoString
    } else if i == 26 {
        NodeKind::CodeFenceContent
    } else if i == 27 {
        NodeKind::IndentedCodeBlock
    } else if i == 28 {
        NodeKind::PipeTable
    } else if i == 29 {
        NodeKind::PipeTableHeader
    } else if i == 30 {
        NodeKind::PipeTableDelimiterRow
    } else if i == 31 {
        NodeKind::PipeTableDelimiterCell
    } else if i == 32 {
        NodeKind::PipeTableRow
    } else if i == 33 {
        NodeKind::PipeTableCell
    } else if i == 34 {
        NodeKind::PipeTableAlignLeft
    } else if i == 35 {
        NodeKind::PipeTableAlignRight
    } else if i == 36 {
        NodeKind::Emphasis
    } else if i == 37 {
        NodeKind::StrongEmphasis
    } else if i == 38 {
        NodeKind::Strikethrough
    } else if i == 39 {
        NodeKind::CodeSpan
    } else if i == 40 {
        NodeKind::EmphasisDelimiter
    } else if i == 41 {
        NodeKind::CodeSpanDelimiter
    } else if i == 42 {
        NodeKind::InlineLink
    } else if i == 43 {
        NodeKind::FullReferenceLink
    } else if i == 44 {
        NodeKind::CollapsedReferenceLink
    } else if i == 45 {
        NodeKind::ShortcutLink
    } else if i == 46 {
        NodeKind::Image
    } else if i == 47 {
        NodeKind::LinkText
    } else if i == 48 {
        NodeKind::LinkDestination
    } else if i == 49 {
        NodeKind::ImageDescription
    } else if i == 50 {
        NodeKind::OpenBracket
    } else {
        NodeKind::CloseBracket
    }
}

/// The kind that a grammar's name stands for: the one of that name, or one of the
/// two that stand for the rest.
pub open spec fn kind_of_name(name: Seq<char>) -> NodeKind {
    kind_from(name, 0)
}

/// As [`kind_of_name`], among the kinds from number `i` on.
pub open spec fn kind_from(name: Seq<char>, i: int) -> NodeKind
    decreases kind_count() - i,
{
    if i < 0 || i >= kind_count() {
        if has_suffix(name, "_delimiter"@) {
            NodeKind::OtherDelimiter
        } else {
            NodeKind::Other
        }
    } else if kind_name(spec_kind_at(i)) == Some(name) {
        spec_kind_at(i)
    } else {
        kind_from(name, i + 1)
    }
}

/// The kind that a grammar's name stands for.
pub fn node_kind(name: &str) -> (r: NodeKind)
    ensures
        r == kind_of_name(name@),
{
    let mut i: usize = 0;
    while i < 52
        invariant
            i <= kind_count(),
            kind_of_name(name@) == kind_from(name@, i as int),
        decreases 52 - i,
    {
        let (kind, kname) = kind_at(i);
        if str_eq(kname, name) {
            return kind;
        }
        i += 1;
    }
    if ends_with(name, "_delimiter") {
        NodeKind::OtherDelimiter
    } else {
        NodeKind::Other
    }
}

impl NodeKind {
    /// The name ends in `_delimiter`.
    pub open spec fn spec_is_delimiter(self) -> bool {
        ||| self == NodeKind::FencedCodeBlockDelimiter
        ||| self == NodeKind::EmphasisDelimiter
        ||| self == NodeKind::CodeSpanDelimiter
        ||| self == NodeKind::OtherDelimiter
    }

    /// Whether the name ends in `_delimiter`.
    pub fn is_delimiter(self) -> (r: bool)
        ensures
            r == self.spec_is_delimiter(),
    {
        self == NodeKind::FencedCodeBlockDelimiter || self == NodeKind::EmphasisDelimiter || self
            == NodeKind::CodeSpanDelimiter || self == NodeKind::OtherDelimiter
    }
}

// ---------------------------------------------------------------------------
// Nodes and trees
// ---------------------------------------------------------------------------

/// A position in the text: zero-based row, and column in bytes.
#[derive(Debug, Clone, Copy, PartialEq, Eq, Structural)]
pub struct Point {
    pub row: usize,
    pub column: usize,
}

/// One node of a syntax tree.
#[derive(Debug, Clone, Copy, PartialEq, Eq, Structural)]
pub struct SyntaxNode {
    pub kind: NodeKind,
    pub named: bool,
    pub start: usize,
    pub end: usize,
    pub start_point: Point,
    pub end_point: Point,
    /// How many ancestors the node has.
    pub depth: usize,
}

/// A range of the text that a parse is limited to.
#[derive(Debug, Clone, Copy, PartialEq, Eq, Structural)]
pub struct SourceRange {
    pub start: usize,
    pub end: usize,
    pub start_point: Point,
    pub end_point: Point,
}

/// A change of the text, as an old tree has to hear of it before it helps with the
/// next parse.
#[derive(Debug, Clone, Copy, PartialEq, Eq, Structural)]
pub struct InputEdit {
    pub start_byte: usize,
    pub old_end_byte: usize,
    pub new_end_byte: usize,
    pub start_position: Point,
    pub old_end_position: Point,
    pub new_end_position: Point,
}

/// A node as the parser reports it.
pub struct NodeData {
    pub kind: Seq<char>,
    pub named: bool,
    pub start: usize,
    pub end: usize,
    pub start_point: Point,
    pub end_point: Point,
    pub depth: usize,
}

/// The plain node that a reported node stands for.
pub open spec fn node_of(d: NodeData) -> SyntaxNode {
    SyntaxNode {
        kind: kind_of_name(d.kind),
        named: d.named,
        start: d.start,
        end: d.end,
        start_point: d.start_point,
        end_point: d.end_point,
        depth: d.depth,
    }
}

/// A walk from the root: the root has depth 0, every other node is below it, and
/// a node is at most one deeper than the node before it.
pub open spec fn is_walk(depths: Seq<int>) -> bool {
    &&& depths.len() > 0
    &&& depths[0] == 0
    &&& forall|i: int|
        0 < i < depths.len() ==> 1 <= (#[trigger] depths[i]) && depths[i] <= depths[i - 1] + 1
}

/// The first index from `from` on whose depth is at most `d`; the number of nodes
/// where there is none.
pub open spec fn end_below(depths: Seq<int>, d: int, from: int) -> int
    decreases depths.len() - from,
{
    if from >= depths.len() {
        depths.len() as int
    } else if depths[from] <= d {
        from
    } else {
        end_below(depths, d, from + 1)
    }
}

/// Where the subtree of node `i` ends: the first node after it that is not below it.
pub open spec fn subtree_end(depths: Seq<int>, i: int) -> int {
    end_below(depths, depths[i], i + 1)
}

/// The parent of node `i`: the last node before it of a smaller depth; `-1` for none.
pub open spec fn parent_of(depths: Seq<int>, i: int) -> int {
    last_below(depths, depths[i], i - 1)
}

/// The last index up to `from` whose depth is smaller than `d`; `-1` for none.
pub open spec fn last_below(depths: Seq<int>, d: int, from: int) -> int
    decreases from + 1,
{
    if from < 0 {
        -1
    } else if depths[from] < d {
        from
    } else {
        last_below(depths, d, from - 1)
    }
}

pub proof fn lemma_end_below(depths: Seq<int>, d: int, from: int)
    requires
        0 <= from <= depths.len(),
    ensures
        ({
            let e = end_below(depths, d, from);
            &&& from <= e <= depths.len()
            &&& e < depths.len() ==> depths[e] <= d
            &&& forall|k: int| from <= k < e ==> (#[trigger] depths[k]) > d
        }),
    decreases depths.len() - from,
{
    if from < depths.len() && depths[from] > d {
        lemma_end_below(depths, d, from + 1);
    }
}

pub proof fn lemma_end_below_is(depths: Seq<int>, d: int, from: int, e: int)
    requires
        0 <= from <= e <= depths.len(),
        e < depths.len() ==> depths[e] <= d,
        forall|k: int| from <= k < e ==> (#[trigger] depths[k]) > d,
    ensures
        end_below(depths, d, from) == e,
    decreases e - from,
{
    if from < e {
        assert(depths[from] > d);
        lemma_end_below_is(depths, d, from + 1, e);
    }
}

proof fn lemma_last_below(depths: Seq<int>, d: int, from: int)
    requires
        -1 <= from < depths.len(),
    ensures
        ({
            let p = last_below(depths, d, from);
            &&& -1 <= p <= from
            &&& p >= 0 ==> depths[p] < d
            &&& forall|k: int| p < k <= from ==> (#[trigger] depths[k]) >= d
        }),
    decreases from + 1,
{
    if from >= 0 && depths[from] >= d {
        lemma_last_below(depths, d, from - 1);
    }
}

/// In a walk, the parent of a node is exactly one level up.
proof fn lemma_parent_depth(depths: Seq<int>, i: int)
    requires
        is_walk(depths),
        0 < i < depths.len(),
    ensures
        0 <= parent_of(depths, i) < i,
        depths[parent_of(depths, i)] == depths[i] - 1,
        forall|k: int| parent_of(depths, i) < k < i ==> (#[trigger] depths[k]) >= depths[i],
{
    lemma_last_below(depths, depths[i], i - 1);
    let p = parent_of(depths, i);
    if p < 0 {
        assert(depths[0] >= depths[i]);
    }
    if p + 1 < i {
        assert(depths[p + 1] >= depths[i]);
        assert(depths[p + 1] <= depths[p] + 1);
    } else {
        assert(depths[i] <= depths[p] + 1);
    }
}

/// The depths of the nodes.
pub open spec fn depths_of(nodes: Seq<SyntaxNode>) -> Seq<int> {
    nodes.map_values(|n: SyntaxNode| n.depth as int)
}

/// The depths of the reported nodes.
pub open spec fn data_depths(nodes: Seq<NodeData>) -> Seq<int> {
    nodes.map_values(|n: NodeData| n.depth as int)
}

// ---------------------------------------------------------------------------
// The outside tree
// ---------------------------------------------------------------------------

#[verifier::external_type_specification]
#[verifier::external_body]
pub struct ExTree(tree_sitter::Tree);

#[verifier::external_type_specification]
#[verifier::external_body]
pub struct ExTreeCursor<'a>(tree_sitter::TreeCursor<'a>);

#[verifier::external_type_specification]
#[verifier::external_body]
pub struct ExParser(tree_sitter::Parser);

/// The nodes that a tree holds, parents before children and siblings in order.
pub uninterp spec fn tree_nodes(t: tree_sitter::Tree) -> Seq<NodeData>;

/// The nodes of the tree that a cursor walks.
pub uninterp spec fn cursor_nodes(c: tree_sitter::TreeCursor<'_>) -> Seq<NodeData>;

/// The index of the node that a cursor is on.
pub uninterp spec fn cursor_at(c: tree_sitter::TreeCursor<'_>) -> int;

/// `Tree::clone`: the copy shares everything with the tree.
pub assume_specification[ <tree_sitter::Tree as std::clone::Clone>::clone ](
    t: &tree_sitter::Tree,
) -> (r: tree_sitter::Tree)
    ensures
        r == *t,
;

/// `Tree::walk`: a cursor on the root of the tree. The nodes of a tree, listed
/// parents first, form a walk.
#[verifier::external_body]
fn tree_walk<'a>(t: &'a tree_sitter::Tree) -> (c: tree_sitter::TreeCursor<'a>)
    ensures
        cursor_nodes(c) == tree_nodes(*t),
        cursor_at(c) == 0,
        is_walk(data_depths(cursor_nodes(c))),
{
    t.walk()
}

/// `TreeCursor::goto_first_child`: moves to the first child, and says whether there
/// is one.
#[verifier::external_body]
fn goto_first_child<'a>(c: &mut tree_sitter::TreeCursor<'a>) -> (moved: bool)
    ensures
        cursor_nodes(*final(c)) == cursor_nodes(*old(c)),
        moved == ({
            let depths = data_depths(cursor_nodes(*old(c)));
            let i = cursor_at(*old(c));
            i + 1 < depths.len() && depths[i + 1] > depths[i]
        }),
        cursor_at(*final(c)) == (if moved {
            cursor_at(*old(c)) + 1
        } else {
            cursor_at(*old(c))
        }),
{
    c.goto_first_child()
}

/// `TreeCursor::goto_next_sibling`: moves to the next sibling, and says whether
/// there is one. The next sibling is the node after the subtree, where that is at
/// the same depth.
#[verifier::external_body]
fn goto_next_sibling<'a>(c: &mut tree_sitter::TreeCursor<'a>) -> (moved: bool)
    ensures
        cursor_nodes(*final(c)) == cursor_nodes(*old(c)),
        moved == ({
            let depths = data_depths(cursor_nodes(*old(c)));
            let i = cursor_at(*old(c));
            let e = subtree_end(depths, i);
            e < depths.len() && depths[e] == depths[i]
        }),
        cursor_at(*final(c)) == (if moved {
            subtree_end(data_depths(cursor_nodes(*old(c))), cursor_at(*old(c)))
        } else {
            cursor_at(*old(c))
        }),
{
    c.goto_next_sibling()
}

/// `TreeCursor::goto_parent`: moves to the parent, and says whether there is one;
/// the root has none.
#[verifier::external_body]
fn goto_parent<'a>(c: &mut tree_sitter::TreeCursor<'a>) -> (moved: bool)
    ensures
        cursor_nodes(*final(c)) == cursor_nodes(*old(c)),
        moved == (cursor_at(*old(c)) > 0),
        cursor_at(*final(c)) == (if moved {
            parent_of(data_depths(cursor_nodes(*old(c))), cursor_at(*old(c)))
        } else {
            cursor_at(*old(c))
        }),
{
    c.goto_parent()
}

/// A node as read off a cursor, without its depth.
struct CursorNode {
    kind: String,
    named: bool,
    start: usize,
    end: usize,
    start_point: Point,
    end_point: Point,
}

/// `TreeCursor::node`, with the node's kind, range and whether it is named.
#[verifier::external_body]
fn cursor_node<'a>(c: &tree_sitter::TreeCursor<'a>) -> (n: CursorNode)
    ensures
        n.kind@ == cursor_nodes(*c)[cursor_at(*c)].kind,
        n.named == cursor_nodes(*c)[cursor_at(*c)].named,
        n.start == cursor_nodes(*c)[cursor_at(*c)].start,
        n.end == cursor_nodes(*c)[cursor_at(*c)].end,
        n.start_point == cursor_nodes(*c)[cursor_at(*c)].start_point,
        n.end_point == cursor_nodes(*c)[cursor_at(*c)].end_point,
{
    let n = c.node();
    let (s, e) = (n.start_position(), n.end_position());
    CursorNode {
        kind: n.kind().to_owned(),
        named: n.is_named(),
        start: n.start_byte(),
        end: n.end_byte(),
        start_point: Point { row: s.row, column: s.column },
        end_point: Point { row: e.row, column: e.column },
    }
}

/// The nodes of a tree as plain values.
pub(crate) fn flatten(t: &tree_sitter::Tree) -> (nodes: Vec<SyntaxNode>)
    ensures
        nodes@ == tree_nodes(*t).map_values(|d: NodeData| node_of(d)),
        is_walk(depths_of(nodes@)),
{
    let ghost data = tree_nodes(*t);
    let ghost depths = data_depths(data);
    let mut nodes: Vec<SyntaxNode> = Vec::new();
    let mut c = tree_walk(t);
    let mut depth: usize = 0;
    loop
        invariant
            data == tree_nodes(*t),
            depths == data_depths(data),
            is_walk(depths),
            cursor_nodes(c) == data,
            cursor_at(c) == nodes@.len(),
            0 <= cursor_at(c) < data.len(),
            depth == depths[cursor_at(c)],
            forall|k: int| 0 <= k < nodes@.len() ==> (#[trigger] nodes@[k]) == node_of(data[k]),
        decreases data.len() - nodes@.len(),
    {
        let n = cursor_node(&c);
        nodes.push(
            SyntaxNode {
                kind: node_kind(n.kind.as_str()),
                named: n.named,
                start: n.start,
                end: n.end,
                start_point: n.start_point,
                end_point: n.end_point,
                depth,
            },
        );
        let ghost at = cursor_at(c);
        if goto_first_child(&mut c) {
            assert(depths[at + 1] <= depths[at] + 1);
            assert(depths[at + 1] == data[at + 1].depth);
            depth += 1;
            continue;
        }
        proof {
            lemma_end_below(depths, depths[at], at + 1);
            if at + 1 < depths.len() {
                lemma_end_below_is(depths, depths[at], at + 1, at + 1);
            }
            assert(subtree_end(depths, at) == nodes@.len());
        }
        let mut moved = goto_next_sibling(&mut c);
        while !moved
            invariant
                depths == data_depths(data),
                is_walk(depths),
                cursor_nodes(c) == data,
                forall|k: int|
                    0 <= k < nodes@.len() ==> (#[trigger] nodes@[k]) == node_of(data[k]),
                0 < nodes@.len() <= data.len(),
                0 <= cursor_at(c) < data.len(),
                depth == depths[cursor_at(c)],
                moved ==> cursor_at(c) == nodes@.len(),
                !moved ==> cursor_at(c) < nodes@.len(),
                !moved ==> subtree_end(depths, cursor_at(c)) == nodes@.len(),
                !moved ==> nodes@.len() < data.len() ==> depths[nodes@.len() as int]
                    < depths[cursor_at(c)],
                data == tree_nodes(*t),
            decreases (if moved {
                0
            } else {
                cursor_at(c) + 1
            }),
        {
            let ghost at = cursor_at(c);
            proof {
                lemma_end_below(depths, depths[at], at + 1);
                if at > 0 {
                    lemma_parent_depth(depths, at);
                }
            }
            if !goto_parent(&mut c) {
                assert(nodes@.len() == data.len()) by {
                    if nodes@.len() < data.len() {
                        assert(1 <= depths[nodes@.len() as int]);
                        assert(depths[nodes@.len() as int] < depths[0]);
                    }
                }
                assert(nodes@ =~= data.map_values(|d: NodeData| node_of(d)));
                assert(depths_of(nodes@) =~= depths);
                return nodes;
            }
            let ghost up = cursor_at(c);
            proof {
                assert forall|k: int| up < k < nodes@.len() implies (#[trigger] depths[k])
                    > depths[up] by {
                    if k > at {
                        assert(depths[k] > depths[at]);
                    } else if k < at {
                        assert(depths[k] >= depths[at]);
                    }
                }
                lemma_end_below_is(depths, depths[up], up + 1, nodes@.len() as int);
            }
            assert(depths[up] == data[up].depth);
            depth -= 1;
            moved = goto_next_sibling(&mut c);
        }
    }
}

// ---------------------------------------------------------------------------
// Trees that fit their text
// ---------------------------------------------------------------------------

/// `i` is the end of `bytes` or the start of a character in it.
pub open spec fn is_cut(bytes: Seq<u8>, i: int) -> bool {
    0 <= i <= bytes.len() && (i == bytes.len() || !is_continuation_byte(bytes[i]))
}

/// In valid text the cuts are the character boundaries.
pub proof fn lemma_cut_is_boundary(bytes: Seq<u8>, i: int)
    requires
        valid_utf8(bytes),
    ensures
        is_cut(bytes, i) ==> is_char_boundary(bytes, i),
        0 <= i <= bytes.len() && is_char_boundary(bytes, i) ==> is_cut(bytes, i),
{
    if 0 <= i < bytes.len() {
        is_char_boundary_iff_not_is_continuation_byte(bytes, i);
    } else if i == bytes.len() {
        is_char_boundary_start_end_of_seq(bytes);
    }
}

/// Whether `i` is the end of `bytes` or the start of a character in it.
pub fn at_cut(bytes: &[u8], i: usize) -> (r: bool)
    ensures
        r == is_cut(bytes@, i as int),
{
    if i < bytes.len() {
        let b = bytes[i];
        !(0x80 <= b && b <= 0xbf)
    } else {
        i == bytes.len()
    }
}

/// Nodes `i` and a later `j` are nested or apart: `j` ends in `i` where it is below
/// it, and starts after it otherwise.
pub open spec fn nested_or_apart(nodes: Seq<SyntaxNode>, i: int, j: int) -> bool {
    if j < subtree_end(depths_of(nodes), i) {
        nodes[j].end <= nodes[i].end
    } else {
        nodes[i].end <= nodes[j].start
    }
}

/// The range of a node is one of the text; where the text is UTF-8, one between two
/// characters of it.
pub open spec fn node_fits(n: SyntaxNode, bytes: Seq<u8>) -> bool {
    &&& n.start <= n.end <= bytes.len()
    &&& valid_utf8(bytes) ==> is_cut(bytes, n.start as int) && is_cut(bytes, n.end as int)
}

/// The nodes form a tree over the text: a walk, whose nodes are ranges of the text, start
/// in order, and are nested or apart.
pub open spec fn tree_fits(nodes: Seq<SyntaxNode>, bytes: Seq<u8>) -> bool {
    &&& is_walk(depths_of(nodes))
    &&& forall|i: int| 0 <= i < nodes.len() ==> node_fits(#[trigger] nodes[i], bytes)
    &&& forall|i: int, j: int|
        0 <= i < j < nodes.len() ==> (#[trigger] nodes[i]).start <= (#[trigger] nodes[j]).start
    &&& forall|i: int, j: int|
        #![trigger nodes[i], nodes[j]]
        0 <= i < j < nodes.len() ==> nested_or_apart(nodes, i, j)
}

/// Some node after `i` and before `j` is not below `i`, and `i` ends before it.
spec fn closed_before(nodes: Seq<SyntaxNode>, i: int, j: int) -> bool {
    exists|k: int|
        i < k < j && (#[trigger] nodes[k]).depth <= nodes[i].depth && nodes[i].end
            <= nodes[k].start
}

proof fn lemma_inside(nodes: Seq<SyntaxNode>, i: int, j: int)
    requires
        0 <= i < j < nodes.len(),
    ensures
        (forall|k: int| i < k <= j ==> (#[trigger] nodes[k]).depth > nodes[i].depth) ==> j
            < subtree_end(depths_of(nodes), i),
        (exists|k: int| i < k <= j && (#[trigger] nodes[k]).depth <= nodes[i].depth) ==> j
            >= subtree_end(depths_of(nodes), i),
{
    let depths = depths_of(nodes);
    lemma_end_below(depths, depths[i], i + 1);
    let e = subtree_end(depths, i);
    if e <= j {
        assert(depths[e] <= depths[i]);
        assert(nodes[e].depth <= nodes[i].depth);
    } else {
        assert forall|k: int| i < k <= j implies (#[trigger] nodes[k]).depth > nodes[i].depth by {
            assert(depths[k] > depths[i]);
        }
    }
}

/// Every node after `i` and before `j` is below `i`.
spec fn is_open(nodes: Seq<SyntaxNode>, i: int, j: int) -> bool {
    0 <= i < j && forall|k: int| i < k < j ==> (#[trigger] nodes[k]).depth > nodes[i].depth
}

/// The first `j` nodes start in order and are nested or apart.
spec fn fits_upto(nodes: Seq<SyntaxNode>, j: int) -> bool {
    &&& forall|i: int, k: int|
        0 <= i < k < j ==> (#[trigger] nodes[i]).start <= (#[trigger] nodes[k]).start
    &&& forall|i: int, k: int|
        #![trigger nodes[i], nodes[k]]
        0 <= i < k < j ==> nested_or_apart(nodes, i, k)
}

/// `open` lists the nodes among the first `j` that are not closed yet, with growing
/// depth.
spec fn open_upto(nodes: Seq<SyntaxNode>, open: Seq<usize>, j: int) -> bool {
    &&& forall|p: int| 0 <= p < open.len() ==> is_open(nodes, #[trigger] open[p] as int, j)
    &&& forall|p: int, q: int|
        0 <= p < q < open.len() ==> nodes[#[trigger] open[p] as int].depth < nodes[
        #[trigger] open[q] as int].depth
    &&& forall|i: int|
        0 <= i < j ==> #[trigger] closed_before(nodes, i, j) || (exists|p: int|
            0 <= p < open.len() && #[trigger] open[p] == i)
}

proof fn lemma_next_node(nodes: Seq<SyntaxNode>, open: Seq<usize>, m: int, j: int)
    requires
        0 <= j < nodes.len(),
        fits_upto(nodes, j),
        open_upto(nodes, open, j),
        0 <= m <= open.len(),
        j > 0 ==> nodes[j - 1].start <= nodes[j].start,
        forall|p: int|
            m <= p < open.len() ==> nodes[#[trigger] open[p] as int].end <= nodes[j].start
                && nodes[open[p] as int].depth >= nodes[j].depth,
        m > 0 ==> nodes[open[m - 1] as int].depth < nodes[j].depth,
        forall|p: int| 0 <= p < m ==> nodes[j].end <= nodes[#[trigger] open[p] as int].end,
        j <= usize::MAX,
    ensures
        fits_upto(nodes, j + 1),
        open_upto(nodes, open.subrange(0, m).push(j as usize), j + 1),
{
    let next = open.subrange(0, m).push(j as usize);
    assert forall|p: int| 0 <= p < m implies nodes[#[trigger] open[p] as int].depth
        < nodes[j].depth by {
        assert(nodes[open[m - 1] as int].depth < nodes[j].depth);
    }
    assert forall|i: int| 0 <= i < j implies (#[trigger] nodes[i]).start <= nodes[j].start by {
        assert(nodes[i].start <= nodes[j - 1].start);
    }
    assert forall|i: int| 0 <= i < j implies nested_or_apart(nodes, i, j) by {
        lemma_inside(nodes, i, j);
        if closed_before(nodes, i, j) {
            let k = choose|k: int|
                i < k < j && (#[trigger] nodes[k]).depth <= nodes[i].depth && nodes[i].end
                    <= nodes[k].start;
            assert(nodes[k].start <= nodes[j].start);
        } else {
            let q = choose|q: int| 0 <= q < open.len() && #[trigger] open[q] == i;
            assert(is_open(nodes, open[q] as int, j));
            if q >= m {
                assert(nodes[j].depth <= nodes[i].depth);
            }
        }
    }
    assert forall|i: int| 0 <= i < j + 1 implies #[trigger] closed_before(nodes, i, j + 1) || (
    exists|p: int| 0 <= p < next.len() && #[trigger] next[p] == i) by {
        if i == j {
            assert(next[m] == j);
        } else if closed_before(nodes, i, j) {
            let k = choose|k: int|
                i < k < j && (#[trigger] nodes[k]).depth <= nodes[i].depth && nodes[i].end
                    <= nodes[k].start;
            assert(nodes[k].depth <= nodes[i].depth);
        } else {
            let q = choose|q: int| 0 <= q < open.len() && #[trigger] open[q] == i;
            if q < m {
                assert(next[q] == i);
            } else {
                assert(nodes[j].depth <= nodes[i].depth);
            }
        }
    }
    assert forall|p: int| 0 <= p < next.len() implies is_open(
        nodes,
        #[trigger] next[p] as int,
        j + 1,
    ) by {
        if p < m {
            assert(next[p] == open[p]);
            assert(is_open(nodes, open[p] as int, j));
        }
    }
    assert forall|p: int, q: int| 0 <= p < q < next.len() implies nodes[
    #[trigger] next[p] as int].depth < nodes[#[trigger] next[q] as int].depth by {
        assert(next[p] == open[p]);
        if q < m {
            assert(next[q] == open[q]);
        }
    }
}

/// Whether the nodes form a tree over the text, of which `utf8` says whether it is UTF-8.
pub fn check_fits(nodes: &Vec<SyntaxNode>, bytes: &[u8], utf8: bool) -> (r: bool)
    requires
        is_walk(depths_of(nodes@)),
        utf8 == valid_utf8(bytes@),
    ensures
        r == tree_fits(nodes@, bytes@),
{
    let mut open: Vec<usize> = Vec::new();
    let mut j: usize = 0;
    while j < nodes.len()
        invariant
            j <= nodes@.len(),
            is_walk(depths_of(nodes@)),
            utf8 == valid_utf8(bytes@),
            forall|i: int| 0 <= i < j ==> node_fits(#[trigger] nodes@[i], bytes@),
            fits_upto(nodes@, j as int),
            open_upto(nodes@, open@, j as int),
        decreases nodes@.len() - j,
    {
        let n = nodes[j];
        if n.start > n.end || n.end > bytes.len() || (utf8 && !(at_cut(bytes, n.start) && at_cut(
            bytes,
            n.end,
        ))) {
            assert(!node_fits(nodes@[j as int], bytes@));
            return false;
        }
        if j > 0 && nodes[j - 1].start > n.start {
            return false;
        }
        let mut m = open.len();
        while m > 0 && nodes[open[m - 1]].depth >= n.depth
            invariant
                j < nodes@.len(),
                n == nodes@[j as int],
                m <= open@.len(),
                open_upto(nodes@, open@, j as int),
                forall|p: int|
                    m <= p < open@.len() ==> nodes@[#[trigger] open@[p] as int].end <= n.start
                        && nodes@[open@[p] as int].depth >= n.depth,
            decreases m,
        {
            let top = open[m - 1];
            assert(is_open(nodes@, open@[m - 1] as int, j as int));
            if nodes[top].end > n.start {
                proof {
                    lemma_inside(nodes@, top as int, j as int);
                    assert(nodes@[j as int].depth <= nodes@[top as int].depth);
                    assert(!nested_or_apart(nodes@, top as int, j as int));
                }
                return false;
            }
            m -= 1;
        }
        assert forall|p: int| 0 <= p < m implies nodes@[#[trigger] open@[p] as int].depth
            < n.depth by {
            assert(nodes@[open@[m - 1] as int].depth < n.depth);
        }
        let mut p: usize = 0;
        while p < m
            invariant
                j < nodes@.len(),
                n == nodes@[j as int],
                p <= m <= open@.len(),
                open_upto(nodes@, open@, j as int),
                forall|q: int|
                    0 <= q < m ==> nodes@[#[trigger] open@[q] as int].depth < n.depth,
                forall|q: int|
                    0 <= q < p ==> n.end <= nodes@[#[trigger] open@[q] as int].end,
            decreases m - p,
        {
            let i = open[p];
            assert(is_open(nodes@, open@[p as int] as int, j as int));
            if n.end > nodes[i].end {
                proof {
                    lemma_inside(nodes@, i as int, j as int);
                    assert(nodes@[i as int].depth < nodes@[j as int].depth);
                    assert(!nested_or_apart(nodes@, i as int, j as int));
                }
                return false;
            }
            p += 1;
        }
        proof {
            lemma_next_node(nodes@, open@, m as int, j as int);
        }
        open.truncate(m);
        open.push(j);
        j += 1;
    }
    true
}

// ---------------------------------------------------------------------------
// Children
// ---------------------------------------------------------------------------

/// The nodes of depth `d` with index in `from..to`.
pub open spec fn at_depth(depths: Seq<int>, d: int, from: int, to: int) -> Seq<int>
    decreases to - from,
{
    if to <= from {
        seq![]
    } else {
        let rest = at_depth(depths, d, from, to - 1);
        if depths[to - 1] == d {
            rest.push(to - 1)
        } else {
            rest
        }
    }
}

/// The children of node `i`, in order.
pub open spec fn children_of(nodes: Seq<SyntaxNode>, i: int) -> Seq<int> {
    let depths = depths_of(nodes);
    at_depth(depths, depths[i] + 1, i + 1, subtree_end(depths, i))
}

/// `v` lists the numbers of `s`.
pub open spec fn lists(v: Seq<usize>, s: Seq<int>) -> bool {
    v.len() == s.len() && forall|k: int| 0 <= k < v.len() ==> (#[trigger] v[k]) == s[k]
}

pub proof fn lemma_at_depth(depths: Seq<int>, d: int, from: int, to: int)
    requires
        0 <= from,
        to <= depths.len(),
    ensures
        forall|k: int|
            0 <= k < at_depth(depths, d, from, to).len() ==> from <= (#[trigger] at_depth(
                depths,
                d,
                from,
                to,
            )[k]) < to && depths[at_depth(depths, d, from, to)[k]] == d,
        forall|k: int, l: int|
            0 <= k < l < at_depth(depths, d, from, to).len() ==> (#[trigger] at_depth(
                depths,
                d,
                from,
                to,
            )[k]) < (#[trigger] at_depth(depths, d, from, to)[l]),
    decreases to - from,
{
    if to > from {
        lemma_at_depth(depths, d, from, to - 1);
        let rest = at_depth(depths, d, from, to - 1);
        let all = at_depth(depths, d, from, to);
        assert forall|k: int| 0 <= k < all.len() implies from <= #[trigger] all[k] < to
            && depths[all[k]] == d by {
            if k < rest.len() {
                assert(all[k] == rest[k]);
            }
        }
        assert forall|k: int, l: int| 0 <= k < l < all.len() implies #[trigger] all[k]
            < #[trigger] all[l] by {
            assert(all[k] == rest[k]);
            if l < rest.len() {
                assert(all[l] == rest[l]);
            }
        }
    }
}

/// The children of a node come after it and before the end of its subtree.
pub proof fn lemma_children(nodes: Seq<SyntaxNode>, i: int)
    requires
        0 <= i < nodes.len(),
    ensures
        i < subtree_end(depths_of(nodes), i) <= nodes.len(),
        forall|k: int|
            0 <= k < children_of(nodes, i).len() ==> i < (#[trigger] children_of(nodes, i)[k])
                < subtree_end(depths_of(nodes), i),
        forall|k: int, l: int|
            0 <= k < l < children_of(nodes, i).len() ==> (#[trigger] children_of(nodes, i)[k]) < (
            #[trigger] children_of(nodes, i)[l]),
{
    let depths = depths_of(nodes);
    lemma_end_below(depths, depths[i], i + 1);
    lemma_at_depth(depths, depths[i] + 1, i + 1, subtree_end(depths, i));
}

/// The depth of a node in a walk is at most its index.
pub proof fn lemma_depth_bound(nodes: Seq<SyntaxNode>, i: int)
    requires
        is_walk(depths_of(nodes)),
        0 <= i < nodes.len(),
    ensures
        nodes[i].depth <= i,
    decreases i,
{
    let depths = depths_of(nodes);
    assert(depths[i] == nodes[i].depth);
    if i > 0 {
        lemma_depth_bound(nodes, i - 1);
        assert(depths[i - 1] == nodes[i - 1].depth);
    }
}

/// Where the subtree of node `i` ends.
pub fn end_of_subtree(nodes: &Vec<SyntaxNode>, i: usize) -> (e: usize)
    requires
        i < nodes@.len(),
    ensures
        e == subtree_end(depths_of(nodes@), i as int),
        i < e <= nodes@.len(),
{
    let ghost depths = depths_of(nodes@);
    let n = nodes.len();
    let d = nodes[i].depth;
    let mut k: usize = i + 1;
    while k < n && nodes[k].depth > d
        invariant
            n == nodes@.len(),
            depths == depths_of(nodes@),
            i < k <= nodes@.len(),
            d == nodes@[i as int].depth,
            forall|x: int| i < x < k ==> (#[trigger] depths[x]) > d,
        decreases nodes@.len() - k,
    {
        assert(depths[k as int] == nodes@[k as int].depth);
        k += 1;
    }
    proof {
        if k < nodes@.len() {
            assert(depths[k as int] == nodes@[k as int].depth);
        }
        lemma_end_below_is(depths, depths[i as int], i + 1, k as int);
    }
    k
}

/// The children of node `i`, in order.
pub fn children(nodes: &Vec<SyntaxNode>, i: usize) -> (r: Vec<usize>)
    requires
        i < nodes@.len(),
        nodes@[i as int].depth < usize::MAX,
    ensures
        lists(r@, children_of(nodes@, i as int)),
        forall|k: int| 0 <= k < r@.len() ==> i < (#[trigger] r@[k]) < nodes@.len(),
{
    let ghost depths = depths_of(nodes@);
    let e = end_of_subtree(nodes, i);
    let d = nodes[i].depth + 1;
    let mut r: Vec<usize> = Vec::new();
    let mut k: usize = i + 1;
    while k < e
        invariant
            i < k <= e <= nodes@.len(),
            depths == depths_of(nodes@),
            lists(r@, at_depth(depths, d as int, i + 1, k as int)),
            forall|x: int| 0 <= x < r@.len() ==> i < (#[trigger] r@[x]) < nodes@.len(),
        decreases e - k,
    {
        assert(depths[k as int] == nodes@[k as int].depth);
        if nodes[k].depth == d {
            r.push(k);
        }
        k += 1;
    }
    r
}

// ---------------------------------------------------------------------------
// Parsing
// ---------------------------------------------------------------------------

/// The nodes that the inline or the block grammar gives for some ranges of a text, for all
/// of it where there are none. An old tree has a say in what the parser takes over from it.
/// `None` where the ranges are out of order or the parser gives up.
pub uninterp spec fn parsed_nodes(
    inline: bool,
    ranges: Seq<SourceRange>,
    text: Seq<u8>,
    old: Option<tree_sitter::Tree>,
) -> Option<Seq<NodeData>>;

/// The nodes of a tree that was told of a change of its text.
pub uninterp spec fn edited_nodes(tree: tree_sitter::Tree, e: InputEdit) -> Seq<NodeData>;

/// The nodes of an optional tree.
pub open spec fn nodes_if_any(t: Option<tree_sitter::Tree>) -> Option<Seq<NodeData>> {
    match t {
        Some(t) => Some(tree_nodes(t)),
        None => None,
    }
}

/// The tree behind an optional reference.
pub open spec fn tree_if_any(t: Option<&tree_sitter::Tree>) -> Option<tree_sitter::Tree> {
    match t {
        Some(t) => Some(*t),
        None => None,
    }
}

/// `Parser::new`: a parser without a language.
#[verifier::external_body]
pub(crate) fn new_parser() -> tree_sitter::Parser {
    tree_sitter::Parser::new()
}

/// `Parser::parse_with_options` with the block grammar of `tree_sitter_md` over the
/// whole text. The nodes depend on the text and the old tree alone.
#[verifier::external_body]
pub(crate) fn parse_block(
    parser: &mut tree_sitter::Parser,
    text: &[u8],
    old: Option<&tree_sitter::Tree>,
) -> (r: Option<tree_sitter::Tree>)
    ensures
        nodes_if_any(r) == parsed_nodes(false, seq![], text@, tree_if_any(old)),
{
    parser.set_language(&tree_sitter_md::LANGUAGE.into()).ok()?;
    parser.set_included_ranges(&[]).ok()?;
    parser.parse_with_options(&mut |i, _| text.get(i..).unwrap_or(&[]), old, None)
}

/// `Parser::parse_with_options` with the inline grammar of `tree_sitter_md`, limited
/// to the ranges given. The nodes depend on the ranges, the text and the old tree alone.
#[verifier::external_body]
pub(crate) fn parse_inline(
    parser: &mut tree_sitter::Parser,
    ranges: &Vec<SourceRange>,
    text: &[u8],
    old: Option<&tree_sitter::Tree>,
) -> (r: Option<tree_sitter::Tree>)
    ensures
        nodes_if_any(r) == parsed_nodes(true, ranges@, text@, tree_if_any(old)),
{
    let point = |p: &Point| tree_sitter::Point { row: p.row, column: p.column };
    let range = |r: &SourceRange| tree_sitter::Range {
        start_byte: r.start,
        end_byte: r.end,
        start_point: point(&r.start_point),
        end_point: point(&r.end_point),
    };
    let ranges: Vec<tree_sitter::Range> = ranges.iter().map(range).collect();
    parser.set_language(&tree_sitter_md::INLINE_LANGUAGE.into()).ok()?;
    parser.set_included_ranges(&ranges).ok()?;
    parser.parse_with_options(&mut |i, _| text.get(i..).unwrap_or(&[]), old, None)
}

/// `Tree::edit`: moves the nodes of a tree along with a change of its text. Where each node
/// ends up depends on the tree and the change alone.
#[verifier::external_body]
pub(crate) fn edit_tree(tree: &mut tree_sitter::Tree, e: &InputEdit)
    ensures
        tree_nodes(*final(tree)) == edited_nodes(*old(tree), *e),
{
    let point = |p: &Point| tree_sitter::Point { row: p.row, column: p.column };
    tree.edit(&tree_sitter::InputEdit {
        start_byte: e.start_byte,
        old_end_byte: e.old_end_byte,
        new_end_byte: e.new_end_byte,
        start_position: point(&e.start_position),
        old_end_position: point(&e.old_end_position),
        new_end_position: point(&e.new_end_position),
    })
}

// ---------------------------------------------------------------------------
// Laws
// ---------------------------------------------------------------------------

/// Each kind has the name that the grammars give it.
pub proof fn law_kind_names()
    ensures
        kind_name(NodeKind::Document) == Some("document"@),
        kind_name(NodeKind::Section) == Some("section"@),
        kind_name(NodeKind::Paragraph) == Some("paragraph"@),
        kind_name(NodeKind::AtxHeading) == Some("atx_heading"@),
        kind_name(NodeKind::List) == Some("list"@),
        kind_name(NodeKind::ListItem) == Some("list_item"@),
        kind_name(NodeKind::Inline) == Some("inline"@),
        kind_name(NodeKind::BlockQuoteMarker) == Some("block_quote_marker"@),
        kind_name(NodeKind::BlockContinuation) == Some("block_continuation"@),
        kind_name(NodeKind::ListMarkerMinus) == Some("list_marker_minus"@),
        kind_name(NodeKind::ListMarkerPlus) == Some("list_marker_plus"@),
        kind_name(NodeKind::ListMarkerStar) == Some("list_marker_star"@),
        kind_name(NodeKind::ListMarkerDot) == Some("list_marker_dot"@),
        kind_name(NodeKind::ListMarkerParenthesis) == Some("list_marker_parenthesis"@),
        kind_name(NodeKind::TaskListMarkerUnchecked) == Some("task_list_marker_unchecked"@),
        kind_name(NodeKind::TaskListMarkerChecked) == Some("task_list_marker_checked"@),
        kind_name(NodeKind::AtxH1Marker) == Some("atx_h1_marker"@),
        kind_name(NodeKind::AtxH2Marker) == Some("atx_h2_marker"@),
        kind_name(NodeKind::AtxH3Marker) == Some("atx_h3_marker"@),
        kind_name(NodeKind::AtxH4Marker) == Some("atx_h4_marker"@),
        kind_name(NodeKind::AtxH5Marker) == Some("atx_h5_marker"@),
        kind_name(NodeKind::AtxH6Marker) == Some("atx_h6_marker"@),
        kind_name(NodeKind::ThematicBreak) == Some("thematic_break"@),
        kind_name(NodeKind::FencedCodeBlock) == Some("fenced_code_block"@),
        kind_name(NodeKind::FencedCodeBlockDelimiter) == Some("fenced_code_block_delimiter"@),
        kind_name(NodeKind::InfoString) == Some("info_string"@),
        kind_name(NodeKind::CodeFenceContent) == Some("code_fence_content"@),
        kind_name(NodeKind::IndentedCodeBlock) == Some("indented_code_block"@),
        kind_name(NodeKind::PipeTable) == Some("pipe_table"@),
        kind_name(NodeKind::PipeTableHeader) == Some("pipe_table_header"@),
        kind_name(NodeKind::PipeTableDelimiterRow) == Some("pipe_table_delimiter_row"@),
        kind_name(NodeKind::PipeTableDelimiterCell) == Some("pipe_table_delimiter_cell"@),
        kind_name(NodeKind::PipeTableRow) == Some("pipe_table_row"@),
        kind_name(NodeKind::PipeTableCell) == Some("pipe_table_cell"@),
        kind_name(NodeKind::PipeTableAlignLeft) == Some("pipe_table_align_left"@),
        kind_name(NodeKind::PipeTableAlignRight) == Some("pipe_table_align_right"@),
        kind_name(NodeKind::Emphasis) == Some("emphasis"@),
        kind_name(NodeKind::StrongEmphasis) == Some("strong_emphasis"@),
        kind_name(NodeKind::Strikethrough) == Some("strikethrough"@),
        kind_name(NodeKind::CodeSpan) == Some("code_span"@),
        kind_name(NodeKind::EmphasisDelimiter) == Some("emphasis_delimiter"@),
        kind_name(NodeKind::CodeSpanDelimiter) == Some("code_span_delimiter"@),
        kind_name(NodeKind::InlineLink) == Some("inline_link"@),
        kind_name(NodeKind::FullReferenceLink) == Some("full_reference_link"@),
        kind_name(NodeKind::CollapsedReferenceLink) == Some("collapsed_reference_link"@),
        kind_name(NodeKind::ShortcutLink) == Some("shortcut_link"@),
        kind_name(NodeKind::Image) == Some("image"@),
        kind_name(NodeKind::LinkText) == Some("link_text"@),
        kind_name(NodeKind::LinkDestination) == Some("link_destination"@),
        kind_name(NodeKind::ImageDescription) == Some("image_description"@),
        kind_name(NodeKind::OpenBracket) == Some("["@),
        kind_name(NodeKind::CloseBracket) == Some("]"@),
        kind_name(NodeKind::OtherDelimiter) is None,
        kind_name(NodeKind::Other) is None,
{
}

/// Every kind that has a name is found by it: there is a number for each.
pub proof fn law_every_kind_has_a_number()
    ensures
        spec_kind_at(0) == NodeKind::Document,
        spec_kind_at(1) == NodeKind::Section,
        spec_kind_at(2) == NodeKind::Paragraph,
        spec_kind_at(3) == NodeKind::AtxHeading,
        spec_kind_at(4) == NodeKind::List,
        spec_kind_at(5) == NodeKind::ListItem,
        spec_kind_at(6) == NodeKind::Inline,
        spec_kind_at(7) == NodeKind::BlockQuoteMarker,
        spec_kind_at(8) == NodeKind::BlockContinuation,
        spec_kind_at(9) == NodeKind::ListMarkerMinus,
        spec_kind_at(10) == NodeKind::ListMarkerPlus,
        spec_kind_at(11) == NodeKind::ListMarkerStar,
        spec_kind_at(12) == NodeKind::ListMarkerDot,
        spec_kind_at(13) == NodeKind::ListMarkerParenthesis,
        spec_kind_at(14) == NodeKind::TaskListMarkerUnchecked,
        spec_kind_at(15) == NodeKind::TaskListMarkerChecked,
        spec_kind_at(16) == NodeKind::AtxH1Marker,
        spec_kind_at(17) == NodeKind::AtxH2Marker,
        spec_kind_at(18) == NodeKind::AtxH3Marker,
        spec_kind_at(19) == NodeKind::AtxH4Marker,
        spec_kind_at(20) == NodeKind::AtxH5Marker,
        spec_kind_at(21) == NodeKind::AtxH6Marker,
        spec_kind_at(22) == NodeKind::ThematicBreak,
        spec_kind_at(23) == NodeKind::FencedCodeBlock,
        spec_kind_at(24) == NodeKind::FencedCodeBlockDelimiter,
        spec_kind_at(25) == NodeKind::InfoString,
        spec_kind_at(26) == NodeKind::CodeFenceContent,
        spec_kind_at(27) == NodeKind::IndentedCodeBlock,
        spec_kind_at(28) == NodeKind::PipeTable,
        spec_kind_at(29) == NodeKind::PipeTableHeader,
        spec_kind_at(30) == NodeKind::PipeTableDelimiterRow,
        spec_kind_at(31) == NodeKind::PipeTableDelimiterCell,
        spec_kind_at(32) == NodeKind::PipeTableRow,
        spec_kind_at(33) == NodeKind::PipeTableCell,
        spec_kind_at(34) == NodeKind::PipeTableAlignLeft,
        spec_kind_at(35) == NodeKind::PipeTableAlignRight,
        spec_kind_at(36) == NodeKind::Emphasis,
        spec_kind_at(37) == NodeKind::StrongEmphasis,
        spec_kind_at(38) == NodeKind::Strikethrough,
        spec_kind_at(39) == NodeKind::CodeSpan,
        spec_kind_at(40) == NodeKind::EmphasisDelimiter,
        spec_kind_at(41) == NodeKind::CodeSpanDelimiter,
        spec_kind_at(42) == NodeKind::InlineLink,
        spec_kind_at(43) == NodeKind::FullReferenceLink,
        spec_kind_at(44) == NodeKind::CollapsedReferenceLink,
        spec_kind_at(45) == NodeKind::ShortcutLink,
        spec_kind_at(46) == NodeKind::Image,
        spec_kind_at(47) == NodeKind::LinkText,
        spec_kind_at(48) == NodeKind::LinkDestination,
        spec_kind_at(49) == NodeKind::ImageDescription,
        spec_kind_at(50) == NodeKind::OpenBracket,
        spec_kind_at(51) == NodeKind::CloseBracket,
        kind_count() == 52,
{
}

/// A kind is read from its name: what is found has that name, and a name that no kind has is
/// that of another delimiter or of another node.
pub proof fn law_kinds_are_read(name: Seq<char>)
    ensures
        kind_name(kind_of_name(name)) == Some(name) || kind_of_name(name)
            == NodeKind::OtherDelimiter || kind_of_name(name) == NodeKind::Other,
        (forall|i: int| 0 <= i < kind_count() ==> #[trigger] kind_name(spec_kind_at(i)) != Some(name))
            ==> kind_of_name(name) == (if has_suffix(name, "_delimiter"@) {
            NodeKind::OtherDelimiter
        } else {
            NodeKind::Other
        }),
{
    lemma_kind_from(name, 0);
}

proof fn lemma_kind_from(name: Seq<char>, i: int)
    requires
        0 <= i <= kind_count(),
    ensures
        kind_name(kind_from(name, i)) == Some(name) || kind_from(name, i)
            == NodeKind::OtherDelimiter || kind_from(name, i) == NodeKind::Other,
        (forall|j: int| i <= j < kind_count() ==> #[trigger] kind_name(spec_kind_at(j)) != Some(name))
            ==> kind_from(name, i) == (if has_suffix(name, "_delimiter"@) {
            NodeKind::OtherDelimiter
        } else {
            NodeKind::Other
        }),
    decreases kind_count() - i,
{
    if i < kind_count() {
        lemma_kind_from(name, i + 1);
        if forall|j: int|
            i <= j < kind_count() ==> #[trigger] kind_name(spec_kind_at(j)) != Some(name) {
            assert(kind_name(spec_kind_at(i)) != Some(name));
        }
    }
}

/// Only delimiters are delimiters: those of code blocks, emphasis and code spans, and others.
pub proof fn law_delimiter_kinds(k: NodeKind)
    ensures
        k.spec_is_delimiter() <==> k == NodeKind::FencedCodeBlockDelimiter || k
            == NodeKind::EmphasisDelimiter || k == NodeKind::CodeSpanDelimiter || k
            == NodeKind::OtherDelimiter,
{
}

/// A node keeps everything that was reported of it.
pub proof fn law_nodes_keep_their_data(d: NodeData)
    ensures
        ({
            let n = node_of(d);
            &&& n.start == d.start && n.end == d.end
            &&& n.start_point == d.start_point && n.end_point == d.end_point
            &&& n.named == d.named && n.depth == d.depth
            &&& n.kind == kind_of_name(d.kind)
        }),
{
}

/// What is below a node is deeper than it, up to the first node that is not; its parent is
/// the last node before it that is less deep.
pub proof fn law_subtrees_and_parents(depths: Seq<int>, i: int)
    requires
        is_walk(depths),
        0 <= i < depths.len(),
    ensures
        ({
            let e = subtree_end(depths, i);
            let p = parent_of(depths, i);
            &&& i < e <= depths.len()
            &&& forall|k: int| i < k < e ==> depths[i] < #[trigger] depths[k]
            &&& e < depths.len() ==> depths[e] <= depths[i]
            &&& i == 0 ==> p == -1
            &&& i > 0 ==> 0 <= p < i && depths[p] < depths[i]
            &&& forall|k: int| p < k < i ==> depths[i] <= #[trigger] depths[k]
        }),
{
    lemma_end_is(depths, depths[i], i + 1);
    lemma_below_is(depths, depths[i], i - 1);
    if i > 0 {
        assert(depths[i] >= 1);
        assert(depths[0] == 0);
    }
}

proof fn lemma_end_is(depths: Seq<int>, d: int, from: int)
    requires
        0 <= from <= depths.len(),
    ensures
        ({
            let e = end_below(depths, d, from);
            &&& from <= e <= depths.len()
            &&& forall|k: int| from <= k < e ==> d < #[trigger] depths[k]
            &&& e < depths.len() ==> depths[e] <= d
        }),
    decreases depths.len() - from,
{
    if from < depths.len() && depths[from] > d {
        lemma_end_is(depths, d, from + 1);
    }
}

proof fn lemma_below_is(depths: Seq<int>, d: int, from: int)
    requires
        -1 <= from < depths.len(),
    ensures
        ({
            let p = last_below(depths, d, from);
            &&& -1 <= p <= from
            &&& p >= 0 ==> depths[p] < d
            &&& forall|k: int| p < k <= from ==> d <= #[trigger] depths[k]
        }),
    decreases from + 1,
{
    if from >= 0 && depths[from] >= d {
        lemma_below_is(depths, d, from - 1);
    }
}

/// The children of a node are the nodes below it that have it for their parent.
pub proof fn law_children_have_their_parent(nodes: Seq<SyntaxNode>, i: int, k: int)
    requires
        is_walk(depths_of(nodes)),
        0 <= i < nodes.len(),
        0 <= k < nodes.len(),
    ensures
        children_of(nodes, i).contains(k) <==> parent_of(depths_of(nodes), k) == i,
{
    let depths = depths_of(nodes);
    let e = subtree_end(depths, i);
    law_subtrees_and_parents(depths, i);
    law_subtrees_and_parents(depths, k);
    lemma_at_depth_holds(depths, depths[i] + 1, i + 1, e, k);
    let p = parent_of(depths, k);
    if i < k < e && depths[k] == depths[i] + 1 {
        if p < i {
            assert(depths[k] <= depths[i]);
        }
        if p > i {
            assert(depths[i] < depths[p]);
        }
    }
    if p == i {
        if k >= e {
            assert(depths[k] <= depths[e]) by {
                if k > e {
                }
            }
        }
        if depths[k] > depths[i] + 1 {
            if k == i + 1 {
                assert(depths[k] <= depths[k - 1] + 1);
            } else {
                lemma_step_down(depths, i, k);
            }
        }
    }
}

proof fn lemma_step_down(depths: Seq<int>, i: int, k: int)
    requires
        is_walk(depths),
        0 <= i < k < depths.len(),
        forall|j: int| i < j < k ==> depths[k] <= #[trigger] depths[j],
    ensures
        depths[k] <= depths[i] + 1,
{
    if k == i + 1 {
        assert(depths[k] <= depths[k - 1] + 1);
    } else {
        assert(depths[k] <= depths[i + 1]);
        assert(depths[i + 1] <= depths[i] + 1) by {
            let n = i + 1;
            assert(depths[n] <= depths[n - 1] + 1);
        }
    }
}

proof fn lemma_at_depth_holds(depths: Seq<int>, d: int, from: int, to: int, k: int)
    requires
        0 <= from,
        to <= depths.len(),
    ensures
        at_depth(depths, d, from, to).contains(k) <==> from <= k < to && depths[k] == d,
    decreases to - from,
{
    if from < to {
        lemma_at_depth_holds(depths, d, from, to - 1, k);
        let rest = at_depth(depths, d, from, to - 1);
        let all = at_depth(depths, d, from, to);
        if depths[to - 1] == d {
            assert(all[rest.len() as int] == to - 1);
            if rest.contains(k) {
                let p = rest.index_of(k);
                assert(all[p] == k);
            }
            if all.contains(k) && k != to - 1 {
                let p = all.index_of(k);
                assert(all[p] == k);
                assert(rest[p] == k);
            }
        }
    }
}

} // verus!
