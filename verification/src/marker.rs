//! Line markers for markdown block-level elements: blockquotes, lists, headings,
//! fences, and how a line shows, continues and nests under them.
use crate::rope::{rope_byte, rope_bytes, rope_len, rope_slice, rope_text};
use crate::parser::{parsed_markdown, MarkdownParser};
use crate::syntax::{
    children, children_of, depths_of, is_walk, last_below, lemma_cut_is_boundary,
    lemma_depth_bound, lists, nested_or_apart, node_fits, parent_of, subtree_end, tree_fits,
    NodeKind, SyntaxNode,
};
use crate::table::{
    any_child, extract_table, has_child, lemma_tables_in_order, table_of, TableInfo, TableView,
};
use crate::text::{
    all_space, byte_len, chars_of, chars_vec, decimal, decimal_string, is_all_whitespace, is_digit,
    is_slice, lemma_ascii_boundary, lemma_decimal, lemma_encode_concat, lemma_slice_boundaries, number_of, parse_number, push_char,
    slice, str_eq, trim, trimmed,
};
use std::ops::Range;
use vstd::prelude::*;
use vstd::string::*;
use vstd::utf8::*;

verus! {

/// The unordered list marker character.
#[derive(Debug, Clone, Copy, PartialEq, Eq, Structural)]
pub enum UnorderedMarker {
    Minus,
    Star,
    Plus,
}

/// The ordered list marker style.
#[derive(Debug, Clone, Copy, PartialEq, Eq, Structural)]
pub enum OrderedMarker {
    Dot,
    Parenthesis,
}

/// The type of marker on a line.
#[derive(Debug, PartialEq)]
pub enum MarkerKind {
    BlockQuote,
    ListItem {
        ordered: bool,
        unordered_marker: Option<UnorderedMarker>,
        ordered_marker: Option<OrderedMarker>,
        /// The number for ordered lists (e.g., 1, 2, 3)
        number: Option<u32>,
    },
    /// A checkbox marker: `[ ]` or `[x]` (rendered inline, not as spacer)
    Checkbox { checked: bool },
    Heading(u8),
    /// A code block fence (``` or ~~~).
    /// `is_opening` is true for the opening fence, false for the closing fence.
    CodeBlockFence { language: Option<String>, is_opening: bool },
    ThematicBreak,
    Indent,
}

/// A [`MarkerKind`] with its text as characters.
pub enum MarkerKindView {
    BlockQuote,
    ListItem {
        ordered: bool,
        unordered_marker: Option<UnorderedMarker>,
        ordered_marker: Option<OrderedMarker>,
        number: Option<u32>,
    },
    Checkbox { checked: bool },
    Heading(u8),
    CodeBlockFence { language: Option<Seq<char>>, is_opening: bool },
    ThematicBreak,
    Indent,
}

/// The characters of an optional string.
pub open spec fn text_if_any(s: Option<String>) -> Option<Seq<char>> {
    match s {
        Some(s) => Some(s@),
        None => None,
    }
}

/// A copy of an optional string.
pub fn copy_text(s: &Option<String>) -> (r: Option<String>)
    ensures
        text_if_any(r) == text_if_any(*s),
        r == *s,
{
    match s {
        Some(s) => Some(s.clone()),
        None => None,
    }
}

impl View for MarkerKind {
    type V = MarkerKindView;

    open spec fn view(&self) -> MarkerKindView {
        match *self {
            MarkerKind::BlockQuote => MarkerKindView::BlockQuote,
            MarkerKind::ListItem { ordered, unordered_marker, ordered_marker, number } =>
                MarkerKindView::ListItem { ordered, unordered_marker, ordered_marker, number },
            MarkerKind::Checkbox { checked } => MarkerKindView::Checkbox { checked },
            MarkerKind::Heading(level) => MarkerKindView::Heading(level),
            MarkerKind::CodeBlockFence { language, is_opening } => MarkerKindView::CodeBlockFence {
                language: text_if_any(language),
                is_opening,
            },
            MarkerKind::ThematicBreak => MarkerKindView::ThematicBreak,
            MarkerKind::Indent => MarkerKindView::Indent,
        }
    }
}

impl Clone for MarkerKind {
    fn clone(&self) -> (r: Self)
        ensures
            r@ == self@,
    {
        match self {
            MarkerKind::BlockQuote => MarkerKind::BlockQuote,
            MarkerKind::ListItem { ordered, unordered_marker, ordered_marker, number } =>
                MarkerKind::ListItem {
                ordered: *ordered,
                unordered_marker: *unordered_marker,
                ordered_marker: *ordered_marker,
                number: *number,
            },
            MarkerKind::Checkbox { checked } => MarkerKind::Checkbox { checked: *checked },
            MarkerKind::Heading(level) => MarkerKind::Heading(*level),
            MarkerKind::CodeBlockFence { language, is_opening } => MarkerKind::CodeBlockFence {
                language: copy_text(language),
                is_opening: *is_opening,
            },
            MarkerKind::ThematicBreak => MarkerKind::ThematicBreak,
            MarkerKind::Indent => MarkerKind::Indent,
        }
    }
}

/// A marker on a line with its byte range.
#[derive(Debug, PartialEq)]
pub struct Marker {
    pub kind: MarkerKind,
    pub range: Range<usize>,
}

/// What a [`Marker`] says.
pub struct MarkerView {
    pub kind: MarkerKindView,
    pub start: int,
    pub end: int,
}

impl View for Marker {
    type V = MarkerView;

    open spec fn view(&self) -> MarkerView {
        MarkerView {
            kind: self.kind@,
            start: self.range.start as int,
            end: self.range.end as int,
        }
    }
}

impl Clone for Marker {
    fn clone(&self) -> (r: Self)
        ensures
            r@ == self@,
    {
        Marker { kind: self.kind.clone(), range: self.range.start..self.range.end }
    }
}

/// What a list of markers says.
pub open spec fn markers_view(ms: Seq<Marker>) -> Seq<MarkerView> {
    ms.map_values(|m: Marker| m@)
}

/// A line with its markers and metadata.
#[derive(Debug, PartialEq)]
pub struct LineMarkers {
    pub range: Range<usize>,
    pub line_number: usize,
    /// Innermost first: the markers from the end of the prefix to its start.
    pub markers: Vec<Marker>,
    /// True if this line is inside a checked task list item
    pub in_checked_task: bool,
    /// True if this line is inside a fenced code block (content lines, not fence lines)
    pub in_code_block: bool,
}

/// What a [`LineMarkers`] says.
pub struct LineMarkersView {
    pub start: int,
    pub end: int,
    pub line_number: int,
    pub markers: Seq<MarkerView>,
    pub in_checked_task: bool,
    pub in_code_block: bool,
}

impl View for LineMarkers {
    type V = LineMarkersView;

    open spec fn view(&self) -> LineMarkersView {
        LineMarkersView {
            start: self.range.start as int,
            end: self.range.end as int,
            line_number: self.line_number as int,
            markers: markers_view(self.markers@),
            in_checked_task: self.in_checked_task,
            in_code_block: self.in_code_block,
        }
    }
}

/// Copies of some markers.
pub fn clone_markers(ms: &Vec<Marker>) -> (r: Vec<Marker>)
    ensures
        markers_view(r@) == markers_view(ms@),
{
    let mut r: Vec<Marker> = Vec::new();
    let mut i: usize = 0;
    while i < ms.len()
        invariant
            i <= ms@.len(),
            r@.len() == i,
            forall|k: int| 0 <= k < i ==> (#[trigger] r@[k])@ == ms@[k]@,
        decreases ms@.len() - i,
    {
        r.push(ms[i].clone());
        i += 1;
    }
    assert(markers_view(r@) =~= markers_view(ms@));
    r
}

impl Clone for LineMarkers {
    fn clone(&self) -> (r: Self)
        ensures
            r@ == self@,
    {
        LineMarkers {
            range: self.range.start..self.range.end,
            line_number: self.line_number,
            markers: clone_markers(&self.markers),
            in_checked_task: self.in_checked_task,
            in_code_block: self.in_code_block,
        }
    }
}

// ---------------------------------------------------------------------------
// Kinds
// ---------------------------------------------------------------------------

impl UnorderedMarker {
    /// Visual bullet for this marker type.
    pub open spec fn spec_bullet(self) -> Seq<char> {
        match self {
            UnorderedMarker::Minus => "• "@,
            UnorderedMarker::Star => "◦ "@,
            UnorderedMarker::Plus => "‣ "@,
        }
    }

    /// Visual bullet for this marker type.
    pub fn bullet(&self) -> (r: &'static str)
        ensures
            r@ == self.spec_bullet(),
    {
        match self {
            UnorderedMarker::Minus => "• ",  // filled circle
            UnorderedMarker::Star => "◦ ",  // white bullet (small hollow)
            UnorderedMarker::Plus => "‣ ",  // triangular bullet
        }
    }
}

impl MarkerKindView {
    /// Visual substitution text for this marker kind.
    pub open spec fn substitution(self) -> Seq<char> {
        match self {
            MarkerKindView::BlockQuote => "  "@,
            MarkerKindView::ListItem { ordered, unordered_marker, .. } => if ordered {
                ""@
            } else {
                match unordered_marker {
                    Some(m) => m.spec_bullet(),
                    None => "• "@,
                }
            },
            MarkerKindView::Checkbox { checked } => if checked {
                "[x] "@
            } else {
                "[ ] "@
            },
            MarkerKindView::Heading(_) => ""@,
            MarkerKindView::CodeBlockFence { .. } => ""@,
            MarkerKindView::ThematicBreak => ""@,
            MarkerKindView::Indent => "  "@,
        }
    }

    /// Continuation text to insert on Enter.
    pub open spec fn continuation(self) -> Seq<char> {
        match self {
            MarkerKindView::BlockQuote => "> "@,
            MarkerKindView::ListItem { ordered, .. } => if ordered {
                "1. "@
            } else {
                "- "@
            },
            MarkerKindView::Checkbox { .. } => "[ ] "@,
            _ => ""@,
        }
    }

    /// What the status bar calls the marker.
    pub open spec fn status_bar_str(self) -> Seq<char> {
        match self {
            MarkerKindView::BlockQuote => ">"@,
            MarkerKindView::ListItem { ordered, unordered_marker, ordered_marker, number } =>
                if ordered {
                decimal(
                    (match number {
                        Some(n) => n as nat,
                        None => 1nat,
                    }),
                ) + (if ordered_marker == Some(OrderedMarker::Parenthesis) {
                    ")"@
                } else {
                    "."@
                })
            } else if unordered_marker == Some(UnorderedMarker::Star) {
                "*"@
            } else if unordered_marker == Some(UnorderedMarker::Plus) {
                "+"@
            } else {
                "-"@
            },
            MarkerKindView::Checkbox { checked } => if checked {
                "[x]"@
            } else {
                "[ ]"@
            },
            MarkerKindView::CodeBlockFence { language, .. } => match language {
                Some(l) => "```"@ + l,
                None => "```"@,
            },
            MarkerKindView::Heading(level) => "H"@ + decimal(level as nat),
            MarkerKindView::ThematicBreak => "---"@,
            MarkerKindView::Indent => ""@,
        }
    }

    /// The marker is drawn as empty space before the text (a quote or an indent).
    pub open spec fn is_prefix(self) -> bool {
        self is Indent || self is BlockQuote
    }
}

impl MarkerKind {
    /// Visual substitution text for this marker kind.
    pub fn substitution(&self) -> (r: &'static str)
        ensures
            r@ == self@.substitution(),
    {
        match self {
            MarkerKind::BlockQuote => "  ",  // Replace "> " with spaces, border shows visually
            MarkerKind::ListItem { ordered, unordered_marker, .. } => if *ordered {
                ""
            } else {
                match unordered_marker {
                    Some(m) => m.bullet(),
                    None => "• ",
                }
            },
            MarkerKind::Checkbox { checked } => if *checked {
                "[x] "
            } else {
                "[ ] "
            },
            MarkerKind::Heading(_) => "",
            MarkerKind::CodeBlockFence { .. } => "",
            MarkerKind::ThematicBreak => "",
            MarkerKind::Indent => "  ",
        }
    }

    /// Continuation text to insert on Enter.
    pub fn continuation(&self) -> (r: &'static str)
        ensures
            r@ == self@.continuation(),
    {
        match self {
            MarkerKind::BlockQuote => "> ",
            MarkerKind::ListItem { ordered, .. } => if *ordered {
                "1. "
            } else {
                "- "
            },
            MarkerKind::Checkbox { .. } => "[ ] ",
            MarkerKind::Heading(_) => "",
            MarkerKind::CodeBlockFence { .. } => "",
            MarkerKind::ThematicBreak => "",
            MarkerKind::Indent => "",
        }
    }

    /// Whether this marker has a left border.
    pub fn has_border(&self) -> (r: bool)
        ensures
            r == (self is BlockQuote),
    {
        matches!(self, MarkerKind::BlockQuote)
    }

    /// Whether this marker represents an active container.
    /// Containers are structures where Enter creates siblings or exits,
    /// as opposed to plain text where Enter creates paragraph breaks.
    pub fn is_container(&self) -> (r: bool)
        ensures
            r == (self is ListItem || self is BlockQuote),
    {
        matches!(self, MarkerKind::ListItem { .. } | MarkerKind::BlockQuote)
    }

    /// Returns true if this is a list marker (ordered or unordered).
    pub fn is_list_item(&self) -> (r: bool)
        ensures
            r == (self is ListItem),
    {
        matches!(self, MarkerKind::ListItem { .. })
    }

    /// Returns true if this is a block-level marker that increases nesting depth.
    pub fn is_block_level(&self) -> (r: bool)
        ensures
            r == (self is BlockQuote || self is ListItem || self is CodeBlockFence),
    {
        matches!(
            self,
            MarkerKind::BlockQuote | MarkerKind::ListItem { .. } | MarkerKind::CodeBlockFence { .. }
        )
    }

    /// Returns true if this is a checkbox marker.
    pub fn is_checkbox(&self) -> (r: bool)
        ensures
            r == (self is Checkbox),
    {
        matches!(self, MarkerKind::Checkbox { .. })
    }

    /// Convert marker to its status bar string representation.
    pub fn status_bar_str(&self) -> (r: String)
        ensures
            r@ == self@.status_bar_str(),
    {
        match self {
            MarkerKind::BlockQuote => ">".to_owned(),
            MarkerKind::ListItem { ordered, unordered_marker, ordered_marker, number } => if *ordered {
                let n: u32 = match number {
                    Some(n) => *n,
                    None => 1,
                };
                let digits = decimal_string(n as u64);
                match ordered_marker {
                    Some(OrderedMarker::Parenthesis) => digits.concat(")"),
                    _ => digits.concat("."),
                }
            } else {
                match unordered_marker {
                    Some(UnorderedMarker::Star) => "*".to_owned(),
                    Some(UnorderedMarker::Plus) => "+".to_owned(),
                    _ => "-".to_owned(),
                }
            },
            MarkerKind::Checkbox { checked } => if *checked {
                "[x]".to_owned()
            } else {
                "[ ]".to_owned()
            },
            MarkerKind::CodeBlockFence { language, .. } => match language {
                Some(l) => "```".to_owned().concat(l.as_str()),
                None => "```".to_owned(),
            },
            MarkerKind::Heading(level) => "H".to_owned().concat(
                decimal_string(*level as u64).as_str(),
            ),
            MarkerKind::ThematicBreak => "---".to_owned(),
            MarkerKind::Indent => "".to_owned(),
        }
    }
}

// ---------------------------------------------------------------------------
// Lines
// ---------------------------------------------------------------------------

/// The classes of markers whose span a line is asked for.
#[derive(Debug, Clone, Copy, PartialEq, Eq, Structural)]
pub enum MarkerClass {
    /// Every marker.
    All,
    /// Markers drawn as spacers: all but checkboxes, which are rendered inline.
    Spacer,
    /// Indents and blockquotes.
    Prefix,
}

impl MarkerClass {
    /// The class holds markers of kind `k`.
    pub open spec fn holds(self, k: MarkerKindView) -> bool {
        match self {
            MarkerClass::All => true,
            MarkerClass::Spacer => !(k is Checkbox),
            MarkerClass::Prefix => k.is_prefix(),
        }
    }
}

/// The markers of a class, in their order.
pub open spec fn of_class(ms: Seq<MarkerView>, class: MarkerClass) -> Seq<MarkerView>
    decreases ms.len(),
{
    if ms.len() == 0 {
        seq![]
    } else {
        let rest = of_class(ms.drop_last(), class);
        if class.holds(ms.last().kind) {
            rest.push(ms.last())
        } else {
            rest
        }
    }
}

/// The combined span of the markers of a class, as (start, end): from the smallest start
/// to the largest end.
pub open spec fn span(ms: Seq<MarkerView>, class: MarkerClass) -> Option<(int, int)> {
    let s = of_class(ms, class);
    if s.len() == 0 {
        None
    } else {
        Some((min_start(s), max_end(s)))
    }
}

/// The smallest start among markers.
pub open spec fn min_start(ms: Seq<MarkerView>) -> int
    decreases ms.len(),
{
    if ms.len() <= 1 {
        ms[0].start
    } else {
        let rest = min_start(ms.drop_last());
        if ms.last().start < rest {
            ms.last().start
        } else {
            rest
        }
    }
}

proof fn lemma_bounds(s: Seq<MarkerView>)
    requires
        s.len() > 0,
    ensures
        forall|i: int|
            0 <= i < s.len() ==> min_start(s) <= (#[trigger] s[i]).start && s[i].end <= max_end(s),
        exists|i: int| 0 <= i < s.len() && (#[trigger] s[i]).start == min_start(s),
        exists|i: int| 0 <= i < s.len() && (#[trigger] s[i]).end == max_end(s),
    decreases s.len(),
{
    let n = s.len() as int;
    assert(s.last() == s[n - 1]);
    if n > 1 {
        let init = s.drop_last();
        lemma_bounds(init);
        assert forall|i: int| 0 <= i < n implies min_start(s) <= (#[trigger] s[i]).start
            && s[i].end <= max_end(s) by {
            if i < n - 1 {
                assert(init[i] == s[i]);
            }
        }
        let a = choose|i: int| 0 <= i < init.len() && (#[trigger] init[i]).start == min_start(init);
        let b = choose|i: int| 0 <= i < init.len() && (#[trigger] init[i]).end == max_end(init);
        assert(s[a] == init[a] && s[b] == init[b]);
        assert(s[if min_start(s) == min_start(init) {
            a
        } else {
            n - 1
        }].start == min_start(s));
        assert(s[if max_end(s) == max_end(init) {
            b
        } else {
            n - 1
        }].end == max_end(s));
    } else {
        assert(s[0].start == min_start(s) && s[0].end == max_end(s));
    }
}

proof fn lemma_of_class(ms: Seq<MarkerView>, class: MarkerClass)
    ensures
        forall|i: int|
            0 <= i < of_class(ms, class).len() ==> ms.contains(#[trigger] of_class(ms, class)[i]),
        forall|i: int|
            0 <= i < ms.len() && class.holds((#[trigger] ms[i]).kind) ==> of_class(
                ms,
                class,
            ).contains(ms[i]),
    decreases ms.len(),
{
    if ms.len() > 0 {
        let init = ms.drop_last();
        let rest = of_class(init, class);
        let all = of_class(ms, class);
        lemma_of_class(init, class);
        assert forall|i: int| 0 <= i < all.len() implies ms.contains(#[trigger] all[i]) by {
            if i < rest.len() {
                assert(init.contains(rest[i]));
                let j = choose|j: int| 0 <= j < init.len() && init[j] == rest[i];
                assert(ms[j] == rest[i]);
            } else {
                assert(ms[ms.len() - 1] == ms.last());
            }
        }
        assert forall|i: int| 0 <= i < ms.len() && class.holds(
            (#[trigger] ms[i]).kind,
        ) implies all.contains(ms[i]) by {
            if i < init.len() {
                assert(init[i] == ms[i]);
                assert(rest.contains(ms[i]));
                let j = choose|j: int| 0 <= j < rest.len() && rest[j] == ms[i];
                assert(all[j] == ms[i]);
            } else {
                assert(all[all.len() - 1] == ms[i]);
            }
        }
    }
}

/// The combined span of a class holds every marker of the class, and starts and ends with
/// one of the line's; there is none where the line has no marker of the class.
pub proof fn law_span_combines(ms: Seq<MarkerView>, class: MarkerClass)
    ensures
        match span(ms, class) {
            Some((s, e)) => {
                &&& forall|i: int|
                    0 <= i < ms.len() && class.holds((#[trigger] ms[i]).kind) ==> s <= ms[i].start
                        && ms[i].end <= e
                &&& exists|i: int|
                    0 <= i < ms.len() && class.holds((#[trigger] ms[i]).kind) && ms[i].start == s
                &&& exists|i: int|
                    0 <= i < ms.len() && class.holds((#[trigger] ms[i]).kind) && ms[i].end == e
            },
            None => forall|i: int| 0 <= i < ms.len() ==> !class.holds((#[trigger] ms[i]).kind),
        },
{
    let c = of_class(ms, class);
    lemma_of_class(ms, class);
    lemma_of_class_holds(ms, class);
    if c.len() > 0 {
        lemma_bounds(c);
        assert forall|i: int| 0 <= i < ms.len() && class.holds(
            (#[trigger] ms[i]).kind,
        ) implies min_start(c) <= ms[i].start && ms[i].end <= max_end(c) by {
            let j = choose|j: int| 0 <= j < c.len() && c[j] == ms[i];
            assert(c[j] == ms[i]);
        }
        let a = choose|i: int| 0 <= i < c.len() && (#[trigger] c[i]).start == min_start(c);
        let b = choose|i: int| 0 <= i < c.len() && (#[trigger] c[i]).end == max_end(c);
        assert(ms.contains(c[a]) && ms.contains(c[b]));
        let i = choose|i: int| 0 <= i < ms.len() && ms[i] == c[a];
        let j = choose|j: int| 0 <= j < ms.len() && ms[j] == c[b];
        assert(class.holds(ms[i].kind) && ms[i].start == min_start(c));
        assert(class.holds(ms[j].kind) && ms[j].end == max_end(c));
    } else {
        assert forall|i: int| 0 <= i < ms.len() implies !class.holds((#[trigger] ms[i]).kind) by {
            if class.holds(ms[i].kind) {
                assert(c.contains(ms[i]));
            }
        }
    }
}

proof fn lemma_of_class_holds(ms: Seq<MarkerView>, class: MarkerClass)
    ensures
        forall|i: int|
            0 <= i < of_class(ms, class).len() ==> class.holds(
                (#[trigger] of_class(ms, class)[i]).kind,
            ),
    decreases ms.len(),
{
    if ms.len() > 0 {
        lemma_of_class_holds(ms.drop_last(), class);
    }
}

/// A range as (start, end).
pub open spec fn range_pair(r: Option<Range<usize>>) -> Option<(int, int)> {
    match r {
        Some(r) => Some((r.start as int, r.end as int)),
        None => None,
    }
}

/// Some marker is of a kind that `p` accepts.
pub open spec fn any_kind(ms: Seq<MarkerView>, p: spec_fn(MarkerKindView) -> bool) -> bool {
    exists|i: int| 0 <= i < ms.len() && p((#[trigger] ms[i]).kind)
}

/// The first marker of a kind that `p` accepts.
pub open spec fn first_kind(ms: Seq<MarkerView>, p: spec_fn(MarkerKindView) -> bool) -> Option<
    MarkerKindView,
>
    decreases ms.len(),
{
    if ms.len() == 0 {
        None
    } else if p(ms[0].kind) {
        Some(ms[0].kind)
    } else {
        first_kind(ms.drop_first(), p)
    }
}

/// How many spaces and tabs there are from byte `i` on, before `end` and before the
/// end of the text.
pub open spec fn blanks(bytes: Seq<u8>, i: int, end: int) -> int
    decreases end - i,
{
    if 0 <= i < end && i < bytes.len() && (bytes[i] == 0x20 || bytes[i] == 0x09) {
        1 + blanks(bytes, i + 1, end)
    } else {
        0
    }
}

/// The spaces and tabs from byte `i` on, before `end`.
pub open spec fn blank_text(bytes: Seq<u8>, i: int, end: int) -> Seq<char> {
    let n = blanks(bytes, i, end);
    if n == 0 {
        seq![]
    } else {
        chars_of(bytes, i, i + n)
    }
}

/// The largest end of the prefix markers, `start` where there is none.
pub open spec fn prefix_end(ms: Seq<MarkerView>, start: int) -> int
    decreases ms.len(),
{
    let p = of_class(ms, MarkerClass::Prefix);
    if p.len() == 0 {
        start
    } else {
        max_end(p)
    }
}

/// The largest end among markers.
pub open spec fn max_end(ms: Seq<MarkerView>) -> int
    decreases ms.len(),
{
    if ms.len() <= 1 {
        ms[0].end
    } else {
        let rest = max_end(ms.drop_last());
        if ms.last().end > rest {
            ms.last().end
        } else {
            rest
        }
    }
}

/// Kinds that show nothing in place of their text when they are all a line has.
pub open spec fn is_silent(k: MarkerKindView) -> bool {
    k is Indent || k is BlockQuote || k is ListItem || k is Checkbox || k is CodeBlockFence
}

/// The substitutions of the markers outside the prefix, outermost first.
pub open spec fn substitutions(ms: Seq<MarkerView>) -> Seq<char>
    decreases ms.len(),
{
    if ms.len() == 0 {
        seq![]
    } else {
        let own = if ms[0].kind is Indent || ms[0].kind is BlockQuote || ms[0].kind is ListItem
            || ms[0].kind is Checkbox {
            seq![]
        } else {
            ms[0].kind.substitution()
        };
        substitutions(ms.drop_first()) + own
    }
}

/// The number at the start of an ordered marker's text: 0 where there is none, or
/// where it is larger than a `u32`.
pub open spec fn leading_number(text: Seq<u8>) -> nat {
    let n = number_of(text.subrange(0, digits(text, 0)));
    if n <= u32::MAX {
        n
    } else {
        0
    }
}

/// How many ASCII digits there are from byte `i` on.
pub open spec fn digits(text: Seq<u8>, i: int) -> int
    decreases text.len() - i,
{
    if 0 <= i < text.len() && is_digit(text[i]) {
        1 + digits(text, i + 1)
    } else {
        0
    }
}

/// An ordered marker with its number raised by one.
pub open spec fn incremented(text: Seq<u8>, style: Option<OrderedMarker>) -> Seq<char> {
    decimal(leading_number(text) + 1) + (if style == Some(OrderedMarker::Parenthesis) {
        ") "@
    } else {
        ". "@
    })
}

/// What one marker contributes to the text that continues its line.
pub open spec fn continued(m: MarkerView, bytes: Seq<u8>) -> Seq<char> {
    match m.kind {
        MarkerKindView::ListItem { ordered, ordered_marker, .. } => if ordered {
            incremented(bytes.subrange(m.start, m.end), ordered_marker)
        } else {
            chars_of(bytes, m.start, m.end)
        },
        MarkerKindView::Indent => chars_of(bytes, m.start, m.end),
        MarkerKindView::BlockQuote => chars_of(bytes, m.start, m.end),
        MarkerKindView::Checkbox { .. } => "[ ] "@,
        _ => m.kind.continuation(),
    }
}

/// The text that continues a line, outermost marker first.
pub open spec fn continuation_of(ms: Seq<MarkerView>, bytes: Seq<u8>) -> Seq<char>
    decreases ms.len(),
{
    if ms.len() == 0 {
        seq![]
    } else {
        continuation_of(ms.drop_first(), bytes) + continued(ms[0], bytes)
    }
}

/// `n` spaces.
pub open spec fn spaces(n: nat) -> Seq<char> {
    Seq::new(n, |i: int| ' ')
}

/// What one marker contributes to the indentation of a paragraph nested under it.
pub open spec fn nested(m: MarkerView, bytes: Seq<u8>) -> Seq<char> {
    match m.kind {
        MarkerKindView::BlockQuote => "> "@,
        MarkerKindView::ListItem { ordered, .. } => if ordered {
            spaces((m.end - m.start) as nat)
        } else {
            "  "@
        },
        MarkerKindView::Indent => chars_of(bytes, m.start, m.end),
        _ => seq![],
    }
}

/// The indentation of a paragraph nested under some markers, outermost first.
pub open spec fn nested_indent(ms: Seq<MarkerView>, bytes: Seq<u8>) -> Seq<char>
    decreases ms.len(),
{
    if ms.len() == 0 {
        seq![]
    } else {
        nested_indent(ms.drop_first(), bytes) + nested(ms[0], bytes)
    }
}

proof fn lemma_blanks(bytes: Seq<u8>, i: int, end: int)
    requires
        0 <= i,
    ensures
        blanks(bytes, i, end) >= 0,
        blanks(bytes, i, end) > 0 ==> i + blanks(bytes, i, end) <= end && i + blanks(bytes, i, end)
            <= bytes.len(),
        forall|k: int|
            i <= k < i + blanks(bytes, i, end) ==> (#[trigger] bytes[k]) == 0x20 || bytes[k]
                == 0x09,
    decreases end - i,
{
    if i < end && i < bytes.len() && (bytes[i] == 0x20 || bytes[i] == 0x09) {
        lemma_blanks(bytes, i + 1, end);
    }
}

proof fn lemma_digits(text: Seq<u8>, i: int)
    requires
        0 <= i <= text.len(),
    ensures
        0 <= digits(text, i) <= text.len() - i,
        forall|k: int| i <= k < i + digits(text, i) ==> is_digit(#[trigger] text[k]),
        i + digits(text, i) < text.len() ==> !is_digit(text[i + digits(text, i)]),
    decreases text.len() - i,
{
    if i < text.len() && is_digit(text[i]) {
        lemma_digits(text, i + 1);
    }
}

/// How many ASCII digits there are from byte `i` on.
fn count_digits(text: &[u8], i: usize) -> (r: usize)
    requires
        i <= text@.len(),
    ensures
        r == digits(text@, i as int),
        i + r <= text@.len(),
        forall|k: int| i <= k < i + r ==> is_digit(#[trigger] text@[k]),
{
    let n = text.len();
    let mut k: usize = i;
    while k < n && 48 <= text[k] && text[k] <= 57
        invariant
            n == text@.len(),
            i <= k <= n,
            digits(text@, i as int) == (k - i) + digits(text@, k as int),
            forall|x: int| i <= x < k ==> is_digit(#[trigger] text@[x]),
        decreases n - k,
    {
        k += 1;
    }
    k - i
}

/// Parse an ordered list marker (e.g., "2. " or "10) ") and return the next number.
/// Returns the incremented marker string, preserving the style (dot vs parenthesis).
/// A number that does not fit counts as 0.
pub fn increment_ordered_marker(text: &str, ordered_marker: Option<OrderedMarker>) -> (r: String)
    requires
        leading_number(text.spec_bytes()) < u32::MAX,
    ensures
        r@ == incremented(text.spec_bytes(), ordered_marker),
{
    let bytes = text.as_bytes();
    let num_end = count_digits(bytes, 0);
    let num: u64 = match parse_number(bytes, 0, num_end, u32::MAX as u64) {
        Some(n) => n,
        None => 0,
    };
    proof {
        if num_end == 0 {
            assert(bytes@.subrange(0, 0).len() == 0);
        }
        assert(num == leading_number(bytes@));
    }
    let next = decimal_string(num + 1);
    match ordered_marker {
        Some(OrderedMarker::Parenthesis) => next.concat(") "),
        _ => next.concat(". "),
    }
}

impl LineMarkers {
    /// Combined byte span of the markers of a class, in one pass.
    fn span_of(&self, class: MarkerClass) -> (r: Option<Range<usize>>)
        ensures
            range_pair(r) == span(self@.markers, class),
    {
        let mut start: usize = 0;
        let mut end: usize = 0;
        let mut found = false;
        let mut i: usize = 0;
        let ghost ms = self@.markers;
        assert(ms.subrange(0, 0) =~= Seq::<MarkerView>::empty());
        while i < self.markers.len()
            invariant
                i <= self.markers@.len(),
                ms == self@.markers,
                found == (of_class(ms.subrange(0, i as int), class).len() > 0),
                found ==> start == min_start(of_class(ms.subrange(0, i as int), class)),
                found ==> end == max_end(of_class(ms.subrange(0, i as int), class)),
            decreases self.markers@.len() - i,
        {
            let m = &self.markers[i];
            let ghost upto = ms.subrange(0, i + 1);
            assert(upto.drop_last() =~= ms.subrange(0, i as int));
            assert(upto.last() == m@);
            let hit = match class {
                MarkerClass::All => true,
                MarkerClass::Spacer => !matches!(m.kind, MarkerKind::Checkbox { .. }),
                MarkerClass::Prefix => matches!(m.kind, MarkerKind::Indent | MarkerKind::BlockQuote),
            };
            assert(hit == class.holds(m@.kind));
            if hit {
                proof {
                    let before = of_class(ms.subrange(0, i as int), class);
                    assert(of_class(upto, class) == before.push(m@));
                    assert(before.push(m@).drop_last() =~= before);
                }
                if !found || m.range.start < start {
                    start = m.range.start;
                }
                if !found || m.range.end > end {
                    end = m.range.end;
                }
                found = true;
            }
            i += 1;
        }
        assert(ms.subrange(0, i as int) =~= ms);
        if found {
            Some(start..end)
        } else {
            None
        }
    }

    /// Returns the combined byte range of spacer markers (excluding Checkbox).
    /// Checkbox markers are rendered inline, not as spacers, so they don't
    /// contribute to wrap indent.
    pub fn marker_range(&self) -> (r: Option<Range<usize>>)
        ensures
            range_pair(r) == span(self@.markers, MarkerClass::Spacer),
    {
        self.span_of(MarkerClass::Spacer)
    }

    /// Returns the combined byte range of ALL markers (including Checkbox).
    /// Used for determining where content actually starts.
    pub fn full_marker_range(&self) -> (r: Option<Range<usize>>)
        ensures
            range_pair(r) == span(self@.markers, MarkerClass::All),
    {
        self.span_of(MarkerClass::All)
    }

    /// Returns the range of prefix markers (Indent, BlockQuote) that are rendered as spacers.
    /// Excludes CodeBlockFence markers. Used by fence lines to know where fence content starts.
    pub fn prefix_marker_range(&self) -> (r: Option<Range<usize>>)
        ensures
            range_pair(r) == span(self@.markers, MarkerClass::Prefix),
    {
        self.span_of(MarkerClass::Prefix)
    }

    /// Returns the byte offset where content starts (after all markers).
    pub fn content_start(&self) -> (r: usize)
        ensures
            r == (match span(self@.markers, MarkerClass::All) {
                Some((_, end)) => end,
                None => self@.start,
            }),
    {
        match self.full_marker_range() {
            Some(r) => r.end,
            None => self.range.start,
        }
    }

    /// Returns the width of the marker (including trailing space) relative to line start.
    /// This is the number of spaces needed to nest under this line.
    /// E.g., "- " = 2, "1. " = 3, "10. " = 4
    pub fn marker_width(&self) -> (r: usize)
        requires
            span(self@.markers, MarkerClass::Spacer) matches Some((_, end)) ==> end >= self@.start,
        ensures
            r == (match span(self@.markers, MarkerClass::Spacer) {
                Some((_, end)) => end - self@.start,
                None => 0,
            }),
    {
        match self.marker_range() {
            Some(range) => range.end - self.range.start,
            None => 0,
        }
    }

    /// Returns the visual substitution text for all markers. Lines that have only
    /// silent markers (quotes, lists, checkboxes, fences, indents) show none; other
    /// lines keep the blanks after their prefix.
    pub fn substitution_rope(&self, rope: &ropey::Rope) -> (r: String)
        ensures
            r@ == (if forall|i: int|
                0 <= i < self@.markers.len() ==> is_silent((#[trigger] self@.markers[i]).kind) {
                seq![]
            } else {
                let from = prefix_end(self@.markers, self@.start);
                blank_text(rope_bytes(*rope), from, self@.end) + substitutions(self@.markers)
            }),
    {
        let ghost ms = self@.markers;
        let mut all_silent = true;
        let mut spacer_end: usize = self.range.start;
        let mut found = false;
        let mut i: usize = 0;
        assert(ms.subrange(0, 0) =~= Seq::<MarkerView>::empty());
        while i < self.markers.len()
            invariant
                i <= self.markers@.len(),
                ms == self@.markers,
                all_silent == (forall|k: int| 0 <= k < i ==> is_silent((#[trigger] ms[k]).kind)),
                found == (of_class(ms.subrange(0, i as int), MarkerClass::Prefix).len() > 0),
                spacer_end == prefix_end(ms.subrange(0, i as int), self@.start),
            decreases self.markers@.len() - i,
        {
            let m = &self.markers[i];
            let ghost upto = ms.subrange(0, i + 1);
            assert(upto.drop_last() =~= ms.subrange(0, i as int));
            assert(upto.last() == m@);
            assert(ms[i as int] == m@);
            let silent = matches!(
                m.kind,
                MarkerKind::Indent | MarkerKind::BlockQuote | MarkerKind::ListItem { .. }
                | MarkerKind::Checkbox { .. } | MarkerKind::CodeBlockFence { .. }
            );
            assert(silent == is_silent(m@.kind));
            if !silent {
                all_silent = false;
            }
            if matches!(m.kind, MarkerKind::Indent | MarkerKind::BlockQuote) {
                proof {
                    let before = of_class(ms.subrange(0, i as int), MarkerClass::Prefix);
                    let after = of_class(upto, MarkerClass::Prefix);
                    assert(after == before.push(m@));
                    assert(after.drop_last() =~= before);
                }
                if !found || m.range.end > spacer_end {
                    spacer_end = m.range.end;
                }
                found = true;
            }
            i += 1;
        }
        assert(ms.subrange(0, i as int) =~= ms);
        if all_silent {
            return String::new();
        }
        let ghost bytes = rope_bytes(*rope);
        let mut ws_end: usize = spacer_end;
        let mut more = true;
        while ws_end < self.range.end && more
            invariant
                spacer_end <= ws_end,
                ws_end > spacer_end ==> ws_end <= self.range.end,
                bytes == rope_bytes(*rope),
                more ==> blanks(bytes, spacer_end as int, self.range.end as int) == (ws_end
                    - spacer_end) + blanks(bytes, ws_end as int, self.range.end as int),
                !more ==> blanks(bytes, spacer_end as int, self.range.end as int) == ws_end
                    - spacer_end,
            decreases self.range.end - ws_end, (if more {
                1int
            } else {
                0int
            }),
        {
            match rope_byte(rope, ws_end) {
                Some(b) => {
                    if b == 0x20 || b == 0x09 {
                        ws_end += 1;
                    } else {
                        more = false;
                    }
                },
                None => {
                    more = false;
                },
            }
        }
        let mut result = if ws_end > spacer_end {
            proof {
                encode_utf8_valid_utf8(rope_text(*rope));
                lemma_blanks(bytes, spacer_end as int, self.range.end as int);
                lemma_ascii_boundary(bytes, spacer_end as int);
                lemma_ascii_boundary(bytes, ws_end - 1);
            }
            rope_slice(rope, spacer_end, ws_end)
        } else {
            String::new()
        };
        proof {
            encode_utf8_decode_utf8(result@);
        }
        let ghost lead = result@;
        let mut k: usize = self.markers.len();
        assert(ms.subrange(k as int, ms.len() as int) =~= Seq::<MarkerView>::empty());
        assert(lead + Seq::<char>::empty() =~= lead);
        while k > 0
            invariant
                k <= self.markers@.len(),
                ms == self@.markers,
                result@ == lead + substitutions(ms.subrange(k as int, ms.len() as int)),
            decreases k,
        {
            let m = &self.markers[k - 1];
            let ghost from = ms.subrange(k - 1, ms.len() as int);
            assert(from.drop_first() =~= ms.subrange(k as int, ms.len() as int));
            assert(from[0] == m@);
            if !matches!(
                m.kind,
                MarkerKind::Indent | MarkerKind::BlockQuote | MarkerKind::ListItem { .. }
                | MarkerKind::Checkbox { .. }
            ) {
                result.append(m.kind.substitution());
            }
            assert(result@ =~= lead + substitutions(from));
            k -= 1;
        }
        assert(ms.subrange(0, ms.len() as int) =~= ms);
        result
    }

    /// Returns the continuation text to insert on Enter.
    /// E.g., "> " for blockquote, "- " for list, "  " for indent.
    /// Markers are stored innermost to outermost, but continuation is in text order
    /// (outermost to innermost), so they are taken from the last to the first.
    /// For ordered lists, the number is incremented (e.g., "2. " becomes "3. ").
    pub fn continuation_rope(&self, rope: &ropey::Rope) -> (r: String)
        requires
            forall|i: int|
                0 <= i < self@.markers.len() ==> {
                    let m = #[trigger] self@.markers[i];
                    (m.kind is ListItem || m.kind.is_prefix()) ==> is_slice(
                        rope_bytes(*rope),
                        m.start,
                        m.end,
                    ) && (m.kind is ListItem && m.kind->ListItem_ordered ==> leading_number(
                        rope_bytes(*rope).subrange(m.start, m.end),
                    ) < u32::MAX)
                },
        ensures
            r@ == continuation_of(self@.markers, rope_bytes(*rope)),
    {
        let ghost ms = self@.markers;
        let ghost bytes = rope_bytes(*rope);
        let mut result = String::new();
        let mut k: usize = self.markers.len();
        assert(ms.subrange(k as int, ms.len() as int) =~= Seq::<MarkerView>::empty());
        while k > 0
            invariant
                k <= self.markers@.len(),
                ms == self@.markers,
                bytes == rope_bytes(*rope),
                forall|i: int|
                    0 <= i < ms.len() ==> {
                        let m = #[trigger] ms[i];
                        (m.kind is ListItem || m.kind.is_prefix()) ==> is_slice(
                            bytes,
                            m.start,
                            m.end,
                        ) && (m.kind is ListItem && m.kind->ListItem_ordered ==> leading_number(
                            bytes.subrange(m.start, m.end),
                        ) < u32::MAX)
                    },
                result@ == continuation_of(ms.subrange(k as int, ms.len() as int), bytes),
            decreases k,
        {
            let m = &self.markers[k - 1];
            let ghost from = ms.subrange(k - 1, ms.len() as int);
            assert(from.drop_first() =~= ms.subrange(k as int, ms.len() as int));
            assert(from[0] == m@);
            assert(ms[k - 1] == m@);
            match &m.kind {
                MarkerKind::ListItem { ordered, ordered_marker, .. } => {
                    let text = rope_slice(rope, m.range.start, m.range.end);
                    proof {
                        encode_utf8_decode_utf8(text@);
                    }
                    if *ordered {
                        result.append(
                            increment_ordered_marker(text.as_str(), *ordered_marker).as_str(),
                        );
                    } else {
                        result.append(text.as_str());
                    }
                },
                MarkerKind::Indent | MarkerKind::BlockQuote => {
                    let text = rope_slice(rope, m.range.start, m.range.end);
                    proof {
                        encode_utf8_decode_utf8(text@);
                    }
                    result.append(text.as_str());
                },
                MarkerKind::Checkbox { .. } => {
                    // When continuing, always use unchecked checkbox
                    result.append("[ ] ");
                },
                _ => {
                    result.append(m.kind.continuation());
                },
            }
            k -= 1;
        }
        assert(ms.subrange(0, ms.len() as int) =~= ms);
        result
    }

    /// Returns true if any marker has a left border (blockquotes).
    pub fn has_border(&self) -> (r: bool)
        ensures
            r == any_kind(self@.markers, |k: MarkerKindView| k is BlockQuote),
    {
        let mut i: usize = 0;
        while i < self.markers.len()
            invariant
                i <= self.markers@.len(),
                forall|k: int| 0 <= k < i ==> !((#[trigger] self@.markers[k]).kind is BlockQuote),
            decreases self.markers@.len() - i,
        {
            if self.markers[i].kind.has_border() {
                assert(self@.markers[i as int].kind is BlockQuote);
                return true;
            }
            i += 1;
        }
        false
    }

    /// Returns true if this line has any container markers (list, blockquote, checkbox).
    pub fn has_container(&self) -> (r: bool)
        ensures
            r == any_kind(
                self@.markers,
                |k: MarkerKindView| k is ListItem || k is BlockQuote || k is Checkbox,
            ),
    {
        let mut i: usize = 0;
        while i < self.markers.len()
            invariant
                i <= self.markers@.len(),
                forall|k: int|
                    0 <= k < i ==> !((#[trigger] self@.markers[k]).kind is BlockQuote
                        || self@.markers[k].kind is ListItem || self@.markers[k].kind is Checkbox),
            decreases self.markers@.len() - i,
        {
            if self.markers[i].kind.is_container() || self.markers[i].kind.is_checkbox() {
                assert(self@.markers[i as int] == self.markers@[i as int]@);
                return true;
            }
            i += 1;
        }
        false
    }

    /// Returns the checkbox state if this line has a checkbox marker.
    pub fn checkbox(&self) -> (r: Option<bool>)
        ensures
            r == (match first_kind(self@.markers, |k: MarkerKindView| k is Checkbox) {
                Some(k) => Some(k->Checkbox_checked),
                None => None,
            }),
    {
        let ghost ms = self@.markers;
        let ghost p = |k: MarkerKindView| k is Checkbox;
        let mut i: usize = 0;
        assert(ms.subrange(0, ms.len() as int) =~= ms);
        while i < self.markers.len()
            invariant
                i <= self.markers@.len(),
                ms == self@.markers,
                p == |k: MarkerKindView| k is Checkbox,
                first_kind(ms, p) == first_kind(ms.subrange(i as int, ms.len() as int), p),
            decreases self.markers@.len() - i,
        {
            let ghost from = ms.subrange(i as int, ms.len() as int);
            assert(from[0] == self.markers@[i as int]@);
            assert(from.drop_first() =~= ms.subrange(i + 1, ms.len() as int));
            if let MarkerKind::Checkbox { checked } = &self.markers[i].kind {
                return Some(*checked);
            }
            i += 1;
        }
        None
    }

    /// Returns the leading whitespace before the first marker of the text, which is the one
    /// that starts first.
    pub fn leading_whitespace(&self, text: &str) -> (r: String)
        requires
            span(self@.markers, MarkerClass::All) matches Some((first, _)) ==> (first > self@.start
                ==> is_slice(text.spec_bytes(), self@.start, first)),
        ensures
            r@ == (match span(self@.markers, MarkerClass::All) {
                Some((first, _)) => if first > self@.start {
                    chars_of(text.spec_bytes(), self@.start, first)
                } else {
                    seq![]
                },
                None => seq![],
            }),
    {
        match self.full_marker_range() {
            Some(range) => {
                if range.start > self.range.start {
                    return slice(text, self.range.start, range.start).to_owned();
                }
            },
            None => {},
        }
        String::new()
    }

    /// Returns true if this line is a code block fence (opening or closing).
    pub fn is_fence(&self) -> (r: bool)
        ensures
            r == any_kind(self@.markers, |k: MarkerKindView| k is CodeBlockFence),
    {
        has_fence(&self.markers)
    }

    /// Returns true if this line is a thematic break (horizontal rule).
    pub fn is_thematic_break(&self) -> (r: bool)
        ensures
            r == any_kind(self@.markers, |k: MarkerKindView| k is ThematicBreak),
    {
        let mut i: usize = 0;
        while i < self.markers.len()
            invariant
                i <= self.markers@.len(),
                forall|k: int|
                    0 <= k < i ==> !((#[trigger] self@.markers[k]).kind is ThematicBreak),
            decreases self.markers@.len() - i,
        {
            if matches!(self.markers[i].kind, MarkerKind::ThematicBreak) {
                assert(self@.markers[i as int].kind is ThematicBreak);
                return true;
            }
            i += 1;
        }
        false
    }

    /// Returns the heading level if this line is a heading.
    pub fn heading_level(&self) -> (r: Option<u8>)
        ensures
            r == (match first_kind(self@.markers, |k: MarkerKindView| k is Heading) {
                Some(k) => Some(k->Heading_0),
                None => None,
            }),
    {
        let ghost ms = self@.markers;
        let ghost p = |k: MarkerKindView| k is Heading;
        let mut i: usize = 0;
        assert(ms.subrange(0, ms.len() as int) =~= ms);
        while i < self.markers.len()
            invariant
                i <= self.markers@.len(),
                ms == self@.markers,
                p == |k: MarkerKindView| k is Heading,
                first_kind(ms, p) == first_kind(ms.subrange(i as int, ms.len() as int), p),
            decreases self.markers@.len() - i,
        {
            let ghost from = ms.subrange(i as int, ms.len() as int);
            assert(from[0] == self.markers@[i as int]@);
            assert(from.drop_first() =~= ms.subrange(i + 1, ms.len() as int));
            if let MarkerKind::Heading(level) = &self.markers[i].kind {
                return Some(*level);
            }
            i += 1;
        }
        None
    }

    /// Returns true if this line contains only blockquote/indent markers (no lists),
    /// and at least one blockquote.
    pub fn is_blockquote_only(&self) -> (r: bool)
        ensures
            r == ({
                &&& forall|i: int|
                    0 <= i < self@.markers.len() ==> (#[trigger] self@.markers[i]).kind.is_prefix()
                &&& any_kind(self@.markers, |k: MarkerKindView| k is BlockQuote)
            }),
    {
        let mut i: usize = 0;
        while i < self.markers.len()
            invariant
                i <= self.markers@.len(),
                forall|k: int| 0 <= k < i ==> (#[trigger] self@.markers[k]).kind.is_prefix(),
            decreases self.markers@.len() - i,
        {
            if !matches!(self.markers[i].kind, MarkerKind::BlockQuote | MarkerKind::Indent) {
                assert(!self@.markers[i as int].kind.is_prefix());
                return false;
            }
            i += 1;
        }
        self.has_border()
    }

    /// Returns the indentation string for a nested paragraph under the current markers.
    /// List markers are converted to equivalent whitespace indentation.
    /// E.g., "- item" -> "  " (2 spaces), "> - item" -> ">   " (blockquote + 2 spaces)
    pub fn nested_paragraph_indent(&self, rope: &ropey::Rope) -> (r: String)
        requires
            forall|i: int|
                0 <= i < self@.markers.len() ==> {
                    let m = #[trigger] self@.markers[i];
                    &&& m.kind is Indent ==> is_slice(rope_bytes(*rope), m.start, m.end)
                    &&& m.kind is ListItem && m.kind->ListItem_ordered ==> m.start <= m.end
                },
        ensures
            r@ == nested_indent(self@.markers, rope_bytes(*rope)),
    {
        let ghost ms = self@.markers;
        let ghost bytes = rope_bytes(*rope);
        let mut result = String::new();
        let mut k: usize = self.markers.len();
        assert(ms.subrange(k as int, ms.len() as int) =~= Seq::<MarkerView>::empty());
        while k > 0
            invariant
                k <= self.markers@.len(),
                ms == self@.markers,
                bytes == rope_bytes(*rope),
                forall|i: int|
                    0 <= i < ms.len() ==> {
                        let m = #[trigger] ms[i];
                        &&& m.kind is Indent ==> is_slice(bytes, m.start, m.end)
                        &&& m.kind is ListItem && m.kind->ListItem_ordered ==> m.start <= m.end
                    },
                result@ == nested_indent(ms.subrange(k as int, ms.len() as int), bytes),
            decreases k,
        {
            let m = &self.markers[k - 1];
            let ghost from = ms.subrange(k - 1, ms.len() as int);
            assert(from.drop_first() =~= ms.subrange(k as int, ms.len() as int));
            assert(from[0] == m@);
            assert(ms[k - 1] == m@);
            let ghost before = result@;
            match &m.kind {
                MarkerKind::BlockQuote => {
                    result.append("> ");
                },
                MarkerKind::ListItem { ordered, .. } => {
                    if *ordered {
                        let indent_len = m.range.end - m.range.start;
                        let mut j: usize = 0;
                        assert(before + spaces(0) =~= before);
                        while j < indent_len
                            invariant
                                j <= indent_len,
                                result@ == before + spaces(j as nat),
                            decreases indent_len - j,
                        {
                            push_char(&mut result, ' ');
                            j += 1;
                            assert(result@ =~= before + spaces(j as nat));
                        }
                    } else {
                        result.append("  ");
                    }
                },
                MarkerKind::Checkbox { .. } => {
                    // Checkbox doesn't contribute to nested indent - it's rendered inline
                },
                MarkerKind::Indent => {
                    let text = rope_slice(rope, m.range.start, m.range.end);
                    proof {
                        encode_utf8_decode_utf8(text@);
                    }
                    result.append(text.as_str());
                },
                _ => {},
            }
            assert(result@ =~= nested_indent(from, bytes));
            k -= 1;
        }
        assert(ms.subrange(0, ms.len() as int) =~= ms);
        result
    }
}

/// Whether some marker is a code block fence.
fn has_fence(markers: &Vec<Marker>) -> (r: bool)
    ensures
        r == any_kind(markers_view(markers@), |k: MarkerKindView| k is CodeBlockFence),
{
    let mut i: usize = 0;
    while i < markers.len()
        invariant
            i <= markers@.len(),
            forall|k: int|
                0 <= k < i ==> !((#[trigger] markers_view(markers@)[k]).kind is CodeBlockFence),
        decreases markers@.len() - i,
    {
        if matches!(markers[i].kind, MarkerKind::CodeBlockFence { .. }) {
            assert(markers_view(markers@)[i as int].kind is CodeBlockFence);
            return true;
        }
        i += 1;
    }
    false
}

// ---------------------------------------------------------------------------
// Markers out of nodes
// ---------------------------------------------------------------------------

/// Owned node info for storing tree structure.
/// Used for efficient lazy [`LineMarkers`] computation during rendering.
#[derive(Debug, Clone, Copy, PartialEq, Eq, Structural)]
pub struct NodeInfo {
    pub start_byte: usize,
    pub end_byte: usize,
    pub kind: NodeKind,
    pub parent_kind: Option<NodeKind>,
    /// For fenced_code_block_delimiter nodes: true if this is the first (opening) delimiter
    pub is_first_fence_delimiter: bool,
    /// True if this node is inside a checked task list item
    pub in_checked_task: bool,
    /// True if this node is inside a fenced code block
    pub in_code_block: bool,
}

/// The nodes start in order.
pub open spec fn infos_in_order(nodes: Seq<NodeInfo>) -> bool {
    forall|i: int, j: int|
        0 <= i <= j < nodes.len() ==> (#[trigger] nodes[i]).start_byte <= (
        #[trigger] nodes[j]).start_byte
}

/// The first node from index `i` on that starts at `target` or later; the number of
/// nodes where there is none.
pub open spec fn first_from(nodes: Seq<NodeInfo>, target: int, i: int) -> int
    decreases nodes.len() - i,
{
    if i >= nodes.len() {
        nodes.len() as int
    } else if nodes[i].start_byte >= target {
        i
    } else {
        first_from(nodes, target, i + 1)
    }
}

proof fn lemma_first_from_is(nodes: Seq<NodeInfo>, target: int, i: int, r: int)
    requires
        0 <= i <= r <= nodes.len(),
        forall|k: int| i <= k < r ==> (#[trigger] nodes[k]).start_byte < target,
        r < nodes.len() ==> nodes[r].start_byte >= target,
    ensures
        first_from(nodes, target, i) == r,
    decreases r - i,
{
    if i < r {
        lemma_first_from_is(nodes, target, i + 1, r);
    }
}

/// Find the index of the first NodeInfo with start_byte >= target.
fn find_node_info_index(nodes: &[NodeInfo], target_byte: usize) -> (r: usize)
    requires
        infos_in_order(nodes@),
    ensures
        r == first_from(nodes@, target_byte as int, 0),
        r <= nodes@.len(),
        forall|k: int| 0 <= k < r ==> (#[trigger] nodes@[k]).start_byte < target_byte,
        forall|k: int| r <= k < nodes@.len() ==> (#[trigger] nodes@[k]).start_byte >= target_byte,
{
    let mut lo: usize = 0;
    let mut hi: usize = nodes.len();
    while lo < hi
        invariant
            infos_in_order(nodes@),
            lo <= hi <= nodes@.len(),
            forall|k: int| 0 <= k < lo ==> (#[trigger] nodes@[k]).start_byte < target_byte,
            forall|k: int|
                hi <= k < nodes@.len() ==> (#[trigger] nodes@[k]).start_byte >= target_byte,
        decreases hi - lo,
    {
        let mid = lo + (hi - lo) / 2;
        if nodes[mid].start_byte < target_byte {
            lo = mid + 1;
        } else {
            hi = mid;
        }
    }
    proof {
        lemma_first_from_is(nodes@, target_byte as int, 0, lo as int);
    }
    lo
}

/// The first index from `i` on that holds byte `b`; the length where none does.
pub open spec fn find_byte(text: Seq<u8>, b: u8, i: int) -> int
    decreases text.len() - i,
{
    if i >= text.len() {
        text.len() as int
    } else if text[i] == b {
        i
    } else {
        find_byte(text, b, i + 1)
    }
}

/// The first index from `i` on that holds byte `b`.
pub fn position_of(text: &[u8], b: u8, i: usize) -> (r: usize)
    requires
        i <= text@.len(),
    ensures
        r == find_byte(text@, b, i as int),
        i <= r <= text@.len(),
        r < text@.len() ==> text@[r as int] == b,
{
    let n = text.len();
    let mut k: usize = i;
    while k < n && text[k] != b
        invariant
            n == text@.len(),
            i <= k <= n,
            find_byte(text@, b, i as int) == find_byte(text@, b, k as int),
        decreases n - k,
    {
        k += 1;
    }
    k
}

/// How many spaces and tabs a marker's text starts with.
pub open spec fn lead(text: Seq<u8>) -> int {
    blanks(text, 0, text.len() as int)
}

/// The number that an ordered marker's text holds after its blanks.
pub open spec fn marker_number(text: Seq<u8>) -> Option<u32> {
    let from = lead(text);
    let n = digits(text, from);
    let value = number_of(text.subrange(from, from + n));
    if n > 0 && value <= u32::MAX {
        Some(value as u32)
    } else {
        None
    }
}

/// The kinds of nodes that open a quote or a list item.
pub open spec fn opens_container(kind: NodeKind) -> bool {
    kind == NodeKind::BlockQuoteMarker || is_bullet(kind) || is_number(kind)
}

/// The markers of unordered lists.
pub open spec fn is_bullet(kind: NodeKind) -> bool {
    kind == NodeKind::ListMarkerMinus || kind == NodeKind::ListMarkerPlus || kind
        == NodeKind::ListMarkerStar
}

/// The markers of ordered lists.
pub open spec fn is_number(kind: NodeKind) -> bool {
    kind == NodeKind::ListMarkerDot || kind == NodeKind::ListMarkerParenthesis
}

/// The marker that a node of this kind with this text stands for. A quote is its
/// `>` with one space after it, if there is one; a list item is its whole text
/// after the blanks.
pub open spec fn node_marker(kind: NodeKind, text: Seq<u8>, start: int) -> Option<MarkerView> {
    let from = lead(text);
    let end = start + text.len();
    if kind == NodeKind::BlockQuoteMarker {
        let gt = find_byte(text, 0x3e, from);
        if gt < text.len() {
            Some(
                MarkerView {
                    kind: MarkerKindView::BlockQuote,
                    start: start + gt,
                    end: start + gt + (if gt + 1 < text.len() && text[gt + 1] == 0x20 {
                        2int
                    } else {
                        1int
                    }),
                },
            )
        } else {
            None
        }
    } else if is_bullet(kind) {
        Some(
            MarkerView {
                kind: MarkerKindView::ListItem {
                    ordered: false,
                    unordered_marker: Some(
                        if kind == NodeKind::ListMarkerMinus {
                            UnorderedMarker::Minus
                        } else if kind == NodeKind::ListMarkerStar {
                            UnorderedMarker::Star
                        } else {
                            UnorderedMarker::Plus
                        },
                    ),
                    ordered_marker: None,
                    number: None,
                },
                start: start + from,
                end,
            },
        )
    } else if is_number(kind) {
        Some(
            MarkerView {
                kind: MarkerKindView::ListItem {
                    ordered: true,
                    unordered_marker: None,
                    ordered_marker: Some(
                        if kind == NodeKind::ListMarkerDot {
                            OrderedMarker::Dot
                        } else {
                            OrderedMarker::Parenthesis
                        },
                    ),
                    number: marker_number(text),
                },
                start: start + from,
                end,
            },
        )
    } else {
        None
    }
}

/// The indent that the blanks before a marker are.
pub open spec fn node_indent(text: Seq<u8>, start: int) -> Option<MarkerView> {
    if lead(text) > 0 {
        Some(MarkerView { kind: MarkerKindView::Indent, start, end: start + lead(text) })
    } else {
        None
    }
}

/// What an optional marker says.
pub open spec fn marker_if_any(m: Option<Marker>) -> Option<MarkerView> {
    match m {
        Some(m) => Some(m@),
        None => None,
    }
}

/// Extract a marker from a node's kind and text.
/// Handles block_quote_marker and list_marker_* nodes.
/// Returns (main_marker, optional_indent_for_leading_whitespace).
fn marker_from_node(node_kind: NodeKind, bytes: &[u8], start: usize) -> (r: (
    Option<Marker>,
    Option<Marker>,
))
    requires
        start + bytes@.len() <= usize::MAX,
    ensures
        marker_if_any(r.0) == node_marker(node_kind, bytes@, start as int),
        marker_if_any(r.1) == node_indent(bytes@, start as int),
{
    let len = bytes.len();
    let mut from: usize = 0;
    while from < len && (bytes[from] == 0x20 || bytes[from] == 0x09)
        invariant
            len == bytes@.len(),
            from <= len,
            lead(bytes@) == from + blanks(bytes@, from as int, len as int),
        decreases len - from,
    {
        from += 1;
    }
    let indent = if from > 0 {
        Some(Marker { kind: MarkerKind::Indent, range: start..start + from })
    } else {
        None
    };
    let end = start + len;
    let marker = match node_kind {
        NodeKind::BlockQuoteMarker => {
            let gt = position_of(bytes, 0x3e, from);
            if gt < len {
                let range_end = if gt + 1 < len && bytes[gt + 1] == 0x20 {
                    gt + 2
                } else {
                    gt + 1
                };
                Some(Marker { kind: MarkerKind::BlockQuote, range: start + gt..start + range_end })
            } else {
                None
            }
        },
        NodeKind::ListMarkerMinus | NodeKind::ListMarkerPlus | NodeKind::ListMarkerStar => {
            let unordered_marker = match node_kind {
                NodeKind::ListMarkerMinus => UnorderedMarker::Minus,
                NodeKind::ListMarkerStar => UnorderedMarker::Star,
                _ => UnorderedMarker::Plus,
            };
            Some(
                Marker {
                    kind: MarkerKind::ListItem {
                        ordered: false,
                        unordered_marker: Some(unordered_marker),
                        ordered_marker: None,
                        number: None,
                    },
                    range: start + from..end,
                },
            )
        },
        NodeKind::ListMarkerDot | NodeKind::ListMarkerParenthesis => {
            let ordered_marker = match node_kind {
                NodeKind::ListMarkerDot => OrderedMarker::Dot,
                _ => OrderedMarker::Parenthesis,
            };
            // Extract the number from the marker text (e.g., "1. " -> 1)
            let count = count_digits(bytes, from);
            let number = match parse_number(bytes, from, from + count, u32::MAX as u64) {
                Some(n) => Some(n as u32),
                None => None,
            };
            Some(
                Marker {
                    kind: MarkerKind::ListItem {
                        ordered: true,
                        unordered_marker: None,
                        ordered_marker: Some(ordered_marker),
                        number,
                    },
                    range: start + from..end,
                },
            )
        },
        _ => None,
    };
    (marker, indent)
}

/// Markers moved by `d` bytes.
pub open spec fn shifted(ms: Seq<MarkerView>, d: int) -> Seq<MarkerView> {
    ms.map_values(|m: MarkerView| MarkerView { kind: m.kind, start: m.start + d, end: m.end + d })
}

/// Shift every marker range by `to - from` (all ranges are ≥ `from`). Used to move
/// markers between the frame of a prefix (base 0) and the live `start` offset.
fn rebase_markers(markers: &Vec<Marker>, from: usize, to: usize) -> (r: Vec<Marker>)
    requires
        forall|i: int|
            0 <= i < markers@.len() ==> {
                let m = (#[trigger] markers@[i]).range;
                &&& from <= m.start
                &&& from <= m.end
                &&& m.start - from + to <= usize::MAX
                &&& m.end - from + to <= usize::MAX
            },
    ensures
        markers_view(r@) == shifted(markers_view(markers@), to - from),
{
    let mut r: Vec<Marker> = Vec::new();
    let mut i: usize = 0;
    while i < markers.len()
        invariant
            i <= markers@.len(),
            r@.len() == i,
            forall|i: int|
                0 <= i < markers@.len() ==> {
                    let m = (#[trigger] markers@[i]).range;
                    &&& from <= m.start
                    &&& from <= m.end
                    &&& m.start - from + to <= usize::MAX
                    &&& m.end - from + to <= usize::MAX
                },
            forall|k: int|
                0 <= k < i ==> (#[trigger] r@[k])@ == shifted(
                    markers_view(markers@),
                    to - from,
                )[k],
        decreases markers@.len() - i,
    {
        let m = &markers[i];
        r.push(
            Marker {
                kind: m.kind.clone(),
                range: m.range.start - from + to..m.range.end - from + to,
            },
        );
        i += 1;
    }
    assert(markers_view(r@) =~= shifted(markers_view(markers@), to - from));
    r
}

/// Moving markers forth and back changes nothing.
pub proof fn law_shift_round_trips(ms: Seq<MarkerView>, d: int)
    ensures
        shifted(shifted(ms, d), -d) == ms,
{
    assert(shifted(shifted(ms, d), -d) =~= ms);
}

// ---------------------------------------------------------------------------
// Continuation prefixes
// ---------------------------------------------------------------------------

/// The markers of a prefix on their way: innermost first.
pub struct Prefix {
    pub markers: Seq<MarkerView>,
    pub last_end: int,
    pub seen: bool,
}

/// `p` after one node: a quote or list marker goes to the front, and so do the
/// blanks before it where they start the prefix or follow another marker.
pub open spec fn prefix_with(p: Prefix, content: Seq<u8>, n: SyntaxNode) -> Prefix {
    if opens_container(n.kind) {
        let text = content.subrange(n.start as int, n.end as int);
        let marker = node_marker(n.kind, text, n.start as int);
        let indent = node_indent(text, n.start as int);
        let ms = if indent matches Some(i) && (p.seen || i.start == 0) {
            seq![indent->Some_0] + p.markers
        } else {
            p.markers
        };
        match marker {
            Some(m) => Prefix { markers: seq![m] + ms, last_end: m.end, seen: true },
            None => Prefix { markers: ms, ..p },
        }
    } else {
        p
    }
}

/// The prefix after the first `k` nodes of its syntax tree.
pub open spec fn prefix_upto(content: Seq<u8>, nodes: Seq<SyntaxNode>, k: int) -> Prefix
    decreases k,
{
    if k <= 0 {
        Prefix { markers: seq![], last_end: 0, seen: false }
    } else {
        prefix_with(prefix_upto(content, nodes, k - 1), content, nodes[k - 1])
    }
}

/// The markers of a prefix whose syntax tree is `nodes`, innermost first. Blanks
/// after the last marker are an indent inside it.
pub open spec fn prefix_markers(content: Seq<u8>, nodes: Seq<SyntaxNode>) -> Seq<MarkerView> {
    let p = prefix_upto(content, nodes, nodes.len() as int);
    let len = content.len() as int;
    if 0 < p.last_end < len && all_space(chars_of(content, p.last_end, len)) {
        seq![MarkerView { kind: MarkerKindView::Indent, start: p.last_end, end: len }] + p.markers
    } else {
        p.markers
    }
}

/// The markers of a continuation prefix, relative to its start; none where it does
/// not parse.
pub open spec fn continuation_markers(content: Seq<u8>) -> Seq<MarkerView> {
    match parsed_markdown(content) {
        None => seq![],
        Some(t) => prefix_markers(content, t.block),
    }
}

spec fn within(ms: Seq<Marker>, len: int) -> bool {
    forall|i: int|
        0 <= i < ms.len() ==> (#[trigger] ms[i]).range.start <= ms[i].range.end && ms[i].range.end
            <= len
}

/// Whether a node of this kind opens a quote or a list item.
fn is_container_marker(kind: NodeKind) -> (r: bool)
    ensures
        r == opens_container(kind),
{
    matches!(
        kind,
        NodeKind::BlockQuoteMarker | NodeKind::ListMarkerMinus | NodeKind::ListMarkerPlus
        | NodeKind::ListMarkerStar | NodeKind::ListMarkerDot | NodeKind::ListMarkerParenthesis
    )
}

proof fn lemma_node_marker_range(kind: NodeKind, text: Seq<u8>, start: int)
    requires
        valid_utf8(text),
    ensures
        0 <= lead(text) <= text.len(),
        node_marker(kind, text, start) matches Some(m) ==> start <= m.start <= m.end <= start
            + text.len() && is_char_boundary(text, m.end - start),
{
    lemma_blanks(text, 0, text.len() as int);
    lemma_find_byte(text, 0x3e, lead(text));
    is_char_boundary_start_end_of_seq(text);
    if kind == NodeKind::BlockQuoteMarker {
        let gt = find_byte(text, 0x3e, lead(text));
        if gt < text.len() {
            lemma_ascii_boundary(text, gt);
            if gt + 1 < text.len() && text[gt + 1] == 0x20 {
                lemma_ascii_boundary(text, gt + 1);
            }
        }
    }
}

proof fn lemma_find_byte(text: Seq<u8>, b: u8, i: int)
    requires
        0 <= i <= text.len(),
    ensures
        i <= find_byte(text, b, i) <= text.len(),
        find_byte(text, b, i) < text.len() ==> text[find_byte(text, b, i)] == b,
    decreases text.len() - i,
{
    if i < text.len() && text[i] != b {
        lemma_find_byte(text, b, i + 1);
    }
}

/// The markers that the nodes of a prefix's syntax tree stand for, innermost first.
pub fn markers_of_prefix(content: &str, nodes: &Vec<SyntaxNode>) -> (r: Vec<Marker>)
    requires
        forall|i: int|
            0 <= i < nodes@.len() ==> node_fits(#[trigger] nodes@[i], content.spec_bytes()),
    ensures
        markers_view(r@) == prefix_markers(content.spec_bytes(), nodes@),
        forall|i: int|
            0 <= i < r@.len() ==> (#[trigger] r@[i]).range.start <= r@[i].range.end
                && r@[i].range.end <= content.spec_bytes().len(),
{
    let ghost bytes = content.spec_bytes();
    let len = byte_len(content);
    let mut markers: Vec<Marker> = Vec::new();
    let mut last_end: usize = 0;
    let mut seen = false;
    let mut k: usize = 0;
    proof {
        encode_utf8_valid_utf8(content@);
        is_char_boundary_start_end_of_seq(bytes);
        assert(markers_view(markers@) =~= Seq::<MarkerView>::empty());
    }
    while k < nodes.len()
        invariant
            bytes == content.spec_bytes(),
            valid_utf8(bytes),
            len == bytes.len(),
            k <= nodes@.len(),
            forall|i: int| 0 <= i < nodes@.len() ==> node_fits(#[trigger] nodes@[i], bytes),
            markers_view(markers@) == prefix_upto(bytes, nodes@, k as int).markers,
            last_end == prefix_upto(bytes, nodes@, k as int).last_end,
            seen == prefix_upto(bytes, nodes@, k as int).seen,
            within(markers@, len as int),
            last_end <= len,
            is_char_boundary(bytes, last_end as int),
        decreases nodes@.len() - k,
    {
        let n = nodes[k];
        if is_container_marker(n.kind) {
            assert(node_fits(nodes@[k as int], bytes));
            proof {
                lemma_cut_is_boundary(bytes, n.start as int);
                lemma_cut_is_boundary(bytes, n.end as int);
                lemma_slice_boundaries(bytes, n.start as int, n.end as int, n.end as int);
            }
            let text = slice(content, n.start, n.end);
            let ghost t = bytes.subrange(n.start as int, n.end as int);
            proof {
                lemma_node_marker_range(n.kind, t, n.start as int);
            }
            let (marker, indent) = marker_from_node(n.kind, text.as_bytes(), n.start);
            if let Some(ind) = indent {
                if seen || ind.range.start == 0 {
                    let ghost before = markers@;
                    markers.insert(0, ind);
                    assert(markers_view(markers@) =~= seq![ind@] + markers_view(before));
                    assert(within(markers@, len as int)) by {
                        assert forall|i: int| 0 <= i < markers@.len() implies (
                        #[trigger] markers@[i]).range.start <= markers@[i].range.end
                            && markers@[i].range.end <= len by {
                            if i > 0 {
                                assert(markers@[i] == before[i - 1]);
                            }
                        }
                    }
                }
            }
            if let Some(m) = marker {
                seen = true;
                proof {
                    lemma_slice_boundaries(
                        bytes,
                        n.start as int,
                        n.end as int,
                        m.range.end as int,
                    );
                }
                last_end = m.range.end;
                let ghost before = markers@;
                markers.insert(0, m);
                assert(markers_view(markers@) =~= seq![m@] + markers_view(before));
                assert(within(markers@, len as int)) by {
                    assert forall|i: int| 0 <= i < markers@.len() implies (
                    #[trigger] markers@[i]).range.start <= markers@[i].range.end
                        && markers@[i].range.end <= len by {
                        if i > 0 {
                            assert(markers@[i] == before[i - 1]);
                        }
                    }
                }
            }
        }
        k += 1;
    }
    if last_end > 0 && last_end < len {
        let trailing = slice(content, last_end, len);
        if is_all_whitespace(trailing) {
            let ghost before = markers@;
            let ind = Marker { kind: MarkerKind::Indent, range: last_end..len };
            markers.insert(0, ind);
            assert(markers_view(markers@) =~= seq![ind@] + markers_view(before));
            assert forall|i: int| 0 <= i < markers@.len() implies (
            #[trigger] markers@[i]).range.start <= markers@[i].range.end && markers@[i].range.end
                <= len by {
                if i > 0 {
                    assert(markers@[i] == before[i - 1]);
                }
            }
        }
    }
    markers
}

/// The markers of a continuation prefix, relative to its start.
fn relative_markers(parser: &mut MarkdownParser, content: &str) -> (r: Vec<Marker>)
    ensures
        markers_view(r@) == continuation_markers(content.spec_bytes()),
        within(r@, content.spec_bytes().len() as int),
{
    match parser.parse_with(content.as_bytes(), None) {
        Some(tree) => {
            assert forall|i: int| 0 <= i < tree@.block.len() implies node_fits(
                #[trigger] tree@.block[i],
                content.spec_bytes(),
            ) by {}
            markers_of_prefix(content, tree.block_tree())
        },
        None => {
            let none: Vec<Marker> = Vec::new();
            assert(markers_view(none@) =~= Seq::<MarkerView>::empty());
            none
        },
    }
}

/// Parse the continuation prefix at `[start, end)` into markers.
/// Returns markers innermost-to-outermost (reverse document order).
///
/// The marker set for a prefix depends only on its text, not on where it sits in the
/// document.
pub fn parse_continuation(rope: &ropey::Rope, start: usize, end: usize) -> (r: Vec<Marker>)
    requires
        is_slice(rope_bytes(*rope), start as int, end as int),
    ensures
        markers_view(r@) == shifted(
            continuation_markers(rope_bytes(*rope).subrange(start as int, end as int)),
            start as int,
        ),
{
    let content = rope_slice(rope, start, end);
    let mut parser = MarkdownParser::default();
    let rel = relative_markers(&mut parser, content.as_str());
    rebase_markers(&rel, 0, start)
}

/// A memory of continuation prefixes. They are short and highly repetitive (`> `,
/// `- `, `  `, …), so almost every call becomes a lookup.
pub struct ContinuationCache {
    entries: Vec<(String, Vec<Marker>)>,
}

impl ContinuationCache {
    #[verifier::type_invariant]
    spec fn inv(self) -> bool {
        forall|i: int|
            0 <= i < self.entries@.len() ==> {
                let bytes = encode_utf8((#[trigger] self.entries@[i]).0@);
                &&& markers_view(self.entries@[i].1@) == continuation_markers(bytes)
                &&& within(self.entries@[i].1@, bytes.len() as int)
            }
    }

    /// A memory of nothing.
    pub fn new() -> Self {
        ContinuationCache { entries: Vec::new() }
    }

    /// As [`parse_continuation`], by looking the prefix up or remembering it.
    pub fn parse_continuation(&mut self, rope: &ropey::Rope, start: usize, end: usize) -> (r: Vec<
        Marker,
    >)
        requires
            is_slice(rope_bytes(*rope), start as int, end as int),
        ensures
            markers_view(r@) == shifted(
                continuation_markers(rope_bytes(*rope).subrange(start as int, end as int)),
                start as int,
            ),
    {
        proof {
            use_type_invariant(&*self);
        }
        let content = rope_slice(rope, start, end);
        let mut i: usize = 0;
        while i < self.entries.len()
            invariant
                i <= self.entries@.len(),
                is_slice(rope_bytes(*rope), start as int, end as int),
                encode_utf8(content@) == rope_bytes(*rope).subrange(start as int, end as int),
                self.inv(),
            decreases self.entries@.len() - i,
        {
            let entry = &self.entries[i];
            if str_eq(entry.0.as_str(), content.as_str()) {
                return rebase_markers(&entry.1, 0, start);
            }
            i += 1;
        }
        let mut parser = MarkdownParser::default();
        let rel = relative_markers(&mut parser, content.as_str());
        let r = rebase_markers(&rel, 0, start);
        let mut entries: Vec<(String, Vec<Marker>)> = Vec::new();
        std::mem::swap(&mut entries, &mut self.entries);
        entries.push((content, rel));
        self.entries = entries;
        r
    }
}

// ---------------------------------------------------------------------------
// The markers of a line
// ---------------------------------------------------------------------------

/// A line's markers on their way, innermost first, with a checkbox that waits for
/// its list marker: (checked, start, end).
pub struct LineState {
    pub markers: Seq<MarkerView>,
    pub pending: Option<(bool, int, int)>,
}

/// `end`, or one more where a space follows.
pub open spec fn over_space(bytes: Seq<u8>, end: int) -> int {
    if end < bytes.len() && bytes[end] == 0x20 {
        end + 1
    } else {
        end
    }
}

/// The level of an ATX heading marker.
pub open spec fn atx_level(kind: NodeKind) -> Option<u8> {
    match kind {
        NodeKind::AtxH1Marker => Some(1),
        NodeKind::AtxH2Marker => Some(2),
        NodeKind::AtxH3Marker => Some(3),
        NodeKind::AtxH4Marker => Some(4),
        NodeKind::AtxH5Marker => Some(5),
        NodeKind::AtxH6Marker => Some(6),
        _ => None,
    }
}

/// The first language that a fence among the markers names.
pub open spec fn fence_language(ms: Seq<MarkerView>) -> Option<Seq<char>>
    decreases ms.len(),
{
    if ms.len() == 0 {
        None
    } else if ms[0].kind is CodeBlockFence && ms[0].kind->CodeBlockFence_language is Some {
        ms[0].kind->CodeBlockFence_language
    } else {
        fence_language(ms.drop_first())
    }
}

/// The markers that are no fences.
pub open spec fn without_fences(ms: Seq<MarkerView>) -> Seq<MarkerView>
    decreases ms.len(),
{
    if ms.len() == 0 {
        seq![]
    } else {
        let rest = without_fences(ms.drop_last());
        if ms.last().kind is CodeBlockFence {
            rest
        } else {
            rest.push(ms.last())
        }
    }
}

/// `ms` with an optional marker behind.
pub open spec fn with_marker(ms: Seq<MarkerView>, m: Option<MarkerView>) -> Seq<MarkerView> {
    match m {
        Some(m) => ms.push(m),
        None => ms,
    }
}

/// The text holds a `>`.
pub open spec fn has_gt(text: Seq<u8>) -> bool {
    find_byte(text, 0x3e, 0) < text.len()
}

/// The nodes that read the text of the line: quotes, continuations, list markers
/// and info strings.
pub open spec fn reads_text(n: NodeInfo) -> bool {
    ||| opens_container(n.kind)
    ||| n.kind == NodeKind::BlockContinuation
    ||| n.kind == NodeKind::InfoString
}

/// The language that an info string names.
pub open spec fn language_of(text: Seq<char>) -> Option<Seq<char>> {
    let t = trimmed(text);
    if t.len() == 0 {
        None
    } else {
        Some(t)
    }
}

/// A line's markers after one more node, which stands before the nodes so far.
pub open spec fn line_step(s: LineState, n: NodeInfo, bytes: Seq<u8>) -> LineState {
    let start = n.start_byte as int;
    let end = n.end_byte as int;
    let text = bytes.subrange(start, end);
    let marker = node_marker(n.kind, text, start);
    let indent = node_indent(text, start);
    if n.kind == NodeKind::BlockQuoteMarker || n.kind == NodeKind::BlockContinuation {
        if n.kind == NodeKind::BlockContinuation && n.parent_kind == Some(
            NodeKind::IndentedCodeBlock,
        ) {
            s
        } else if has_gt(text) {
            LineState { markers: s.markers + shifted(continuation_markers(text), start), ..s }
        } else if text.len() > 0 && all_space(chars_of(bytes, start, end)) {
            LineState {
                markers: s.markers.push(MarkerView { kind: MarkerKindView::Indent, start, end }),
                ..s
            }
        } else {
            s
        }
    } else if is_bullet(n.kind) {
        let a = with_marker(s.markers, indent);
        let b = match s.pending {
            Some((checked, cs, ce)) => a.push(
                MarkerView { kind: MarkerKindView::Checkbox { checked }, start: cs, end: ce },
            ),
            None => a,
        };
        LineState { markers: with_marker(b, marker), pending: None }
    } else if is_number(n.kind) {
        LineState { markers: with_marker(with_marker(s.markers, indent), marker), ..s }
    } else if n.kind == NodeKind::TaskListMarkerUnchecked || n.kind
        == NodeKind::TaskListMarkerChecked {
        LineState {
            pending: Some(
                (n.kind == NodeKind::TaskListMarkerChecked, start, over_space(bytes, end)),
            ),
            ..s
        }
    } else if atx_level(n.kind) is Some {
        LineState {
            markers: s.markers.push(
                MarkerView {
                    kind: MarkerKindView::Heading(atx_level(n.kind)->Some_0),
                    start,
                    end: over_space(bytes, end),
                },
            ),
            ..s
        }
    } else if n.kind == NodeKind::ThematicBreak {
        LineState {
            markers: s.markers.push(
                MarkerView { kind: MarkerKindView::ThematicBreak, start, end },
            ),
            ..s
        }
    } else if n.kind == NodeKind::FencedCodeBlockDelimiter {
        LineState {
            markers: without_fences(s.markers).push(
                MarkerView {
                    kind: MarkerKindView::CodeBlockFence {
                        language: fence_language(s.markers),
                        is_opening: n.is_first_fence_delimiter,
                    },
                    start,
                    end,
                },
            ),
            ..s
        }
    } else if n.kind == NodeKind::InfoString {
        LineState {
            markers: s.markers.push(
                MarkerView {
                    kind: MarkerKindView::CodeBlockFence {
                        language: language_of(chars_of(bytes, start, end)),
                        is_opening: true,
                    },
                    start,
                    end,
                },
            ),
            ..s
        }
    } else {
        s
    }
}

/// A line's markers after the nodes `j..hi`, from the last to the first.
pub open spec fn line_fold(nodes: Seq<NodeInfo>, bytes: Seq<u8>, j: int, hi: int) -> LineState
    decreases hi - j,
{
    if j >= hi {
        LineState { markers: seq![], pending: None }
    } else {
        line_step(line_fold(nodes, bytes, j + 1, hi), nodes[j], bytes)
    }
}

/// The text is a bare fence: three or more of one of the two fence characters.
pub open spec fn is_bare_fence(text: Seq<char>) -> bool {
    &&& text.len() >= 3
    &&& (forall|i: int| 0 <= i < text.len() ==> #[trigger] text[i] == '`') || (forall|i: int|
        0 <= i < text.len() ==> #[trigger] text[i] == '~')
}

/// The markers of the line `start..end`, innermost first: those of the nodes that
/// start on it. A line that holds nothing but a fence is a closing fence even where
/// no node says so, which is the case for one at the end of the text.
pub open spec fn line_markers(nodes: Seq<NodeInfo>, bytes: Seq<u8>, start: int, end: int) -> Seq<
    MarkerView,
> {
    let ms = line_fold(
        nodes,
        bytes,
        first_from(nodes, start, 0),
        first_from(nodes, end + 1, 0),
    ).markers;
    if !any_kind(ms, |k: MarkerKindView| k is CodeBlockFence) && is_bare_fence(
        trimmed(chars_of(bytes, start, end)),
    ) {
        ms.push(
            MarkerView {
                kind: MarkerKindView::CodeBlockFence { language: None, is_opening: false },
                start,
                end,
            },
        )
    } else {
        ms
    }
}

/// Extend a marker's end byte to include a single trailing space, if present.
fn extend_over_space(rope: &ropey::Rope, end: usize) -> (r: usize)
    ensures
        r == over_space(rope_bytes(*rope), end as int),
{
    let len = rope_len(rope);
    if rope_byte(rope, end) == Some(0x20u8) {
        end + 1
    } else {
        end
    }
}

/// The first language that a fence among the markers names.
fn named_language(markers: &Vec<Marker>) -> (r: Option<String>)
    ensures
        text_if_any(r) == fence_language(markers_view(markers@)),
{
    let ghost ms = markers_view(markers@);
    let mut i: usize = 0;
    assert(ms.subrange(0, ms.len() as int) =~= ms);
    while i < markers.len()
        invariant
            i <= markers@.len(),
            ms == markers_view(markers@),
            fence_language(ms) == fence_language(ms.subrange(i as int, ms.len() as int)),
        decreases markers@.len() - i,
    {
        let ghost from = ms.subrange(i as int, ms.len() as int);
        assert(from[0] == markers@[i as int]@);
        assert(from.drop_first() =~= ms.subrange(i + 1, ms.len() as int));
        if let MarkerKind::CodeBlockFence { language, .. } = &markers[i].kind {
            if language.is_some() {
                return copy_text(language);
            }
        }
        i += 1;
    }
    None
}

/// Copies of the markers that are no fences.
fn drop_fences(markers: &Vec<Marker>) -> (r: Vec<Marker>)
    ensures
        markers_view(r@) == without_fences(markers_view(markers@)),
{
    let ghost ms = markers_view(markers@);
    let mut r: Vec<Marker> = Vec::new();
    let mut i: usize = 0;
    assert(ms.subrange(0, 0) =~= Seq::<MarkerView>::empty());
    assert(markers_view(r@) =~= Seq::<MarkerView>::empty());
    while i < markers.len()
        invariant
            i <= markers@.len(),
            ms == markers_view(markers@),
            markers_view(r@) == without_fences(ms.subrange(0, i as int)),
        decreases markers@.len() - i,
    {
        let ghost upto = ms.subrange(0, i + 1);
        assert(upto.drop_last() =~= ms.subrange(0, i as int));
        assert(upto.last() == markers@[i as int]@);
        if !matches!(markers[i].kind, MarkerKind::CodeBlockFence { .. }) {
            push_marker(&mut r, markers[i].clone());
        }
        i += 1;
    }
    assert(ms.subrange(0, i as int) =~= ms);
    r
}

/// Appends a marker.
fn push_marker(markers: &mut Vec<Marker>, m: Marker)
    ensures
        markers_view(final(markers)@) == markers_view(old(markers)@).push(m@),
{
    let ghost before = markers@;
    markers.push(m);
    assert(markers_view(markers@) =~= markers_view(before).push(m@));
}

/// Appends a marker, if there is one.
fn push_if_any(markers: &mut Vec<Marker>, m: Option<Marker>)
    ensures
        markers_view(final(markers)@) == with_marker(
            markers_view(old(markers)@),
            marker_if_any(m),
        ),
{
    match m {
        Some(m) => push_marker(markers, m),
        None => {},
    }
}

/// Whether a line holds nothing but a fence.
fn looks_like_fence(line: &str) -> (r: bool)
    ensures
        r == is_bare_fence(trimmed(line@)),
{
    let t = trim(line);
    let v = chars_vec(t.as_str());
    if v.len() < 3 {
        return false;
    }
    let c = v[0];
    if c != '`' && c != '~' {
        assert(t@[0] == c);
        return false;
    }
    let mut i: usize = 0;
    while i < v.len()
        invariant
            t@ == trimmed(line@),
            v@ == t@,
            v@.len() >= 3,
            c == v@[0],
            i <= v@.len(),
            forall|k: int| 0 <= k < i ==> (#[trigger] t@[k]) == c,
        decreases v@.len() - i,
    {
        if v[i] != c {
            assert(t@[0] != t@[i as int]);
            return false;
        }
        i += 1;
    }
    true
}

/// The text of a node's range in a rope.
fn node_text(rope: &ropey::Rope, start: usize, end: usize) -> (r: String)
    requires
        is_slice(rope_bytes(*rope), start as int, end as int),
    ensures
        encode_utf8(r@) == rope_bytes(*rope).subrange(start as int, end as int),
        r@ == chars_of(rope_bytes(*rope), start as int, end as int),
        end <= usize::MAX,
{
    let s = rope_slice(rope, start, end);
    proof {
        encode_utf8_decode_utf8(s@);
    }
    s
}

/// One node's contribution to the markers of its line.
fn apply_node(
    markers: &mut Vec<Marker>,
    pending: &mut Option<(bool, Range<usize>)>,
    node: &NodeInfo,
    rope: &ropey::Rope,
)
    requires
        reads_text(*node) ==> is_slice(
            rope_bytes(*rope),
            node.start_byte as int,
            node.end_byte as int,
        ),
    ensures
        ({
            let before = LineState {
                markers: markers_view(old(markers)@),
                pending: pending_view(*old(pending)),
            };
            let after = line_step(before, *node, rope_bytes(*rope));
            &&& markers_view(final(markers)@) == after.markers
            &&& pending_view(*final(pending)) == after.pending
        }),
{
    let start = node.start_byte;
    let end = node.end_byte;
    let kind = node.kind;
    match kind {
        NodeKind::BlockQuoteMarker | NodeKind::BlockContinuation => {
            let in_code = match node.parent_kind {
                Some(k) => k == NodeKind::IndentedCodeBlock,
                None => false,
            };
            if kind == NodeKind::BlockContinuation && in_code {
                return;
            }
            let content = node_text(rope, start, end);
            let bytes = content.as_str().as_bytes();
            if position_of(bytes, 0x3e, 0) < bytes.len() {
                let mut more = parse_continuation(rope, start, end);
                let ghost a = markers@;
                let ghost b = more@;
                markers.append(&mut more);
                assert(markers_view(markers@) =~= markers_view(a) + markers_view(b));
            } else if bytes.len() > 0 && is_all_whitespace(content.as_str()) {
                push_marker(markers, Marker { kind: MarkerKind::Indent, range: start..end });
            }
        },
        NodeKind::ListMarkerMinus | NodeKind::ListMarkerPlus | NodeKind::ListMarkerStar => {
            let content = node_text(rope, start, end);
            let (marker, indent) = marker_from_node(kind, content.as_str().as_bytes(), start);
            push_if_any(markers, indent);
            // If there's a pending checkbox, add it as a separate Checkbox marker
            if let Some((checked, range)) = pending.take() {
                push_marker(markers, Marker { kind: MarkerKind::Checkbox { checked }, range });
            }
            // Always add the list item marker
            push_if_any(markers, marker);
        },
        NodeKind::ListMarkerDot | NodeKind::ListMarkerParenthesis => {
            let content = node_text(rope, start, end);
            let (marker, indent) = marker_from_node(kind, content.as_str().as_bytes(), start);
            push_if_any(markers, indent);
            push_if_any(markers, marker);
        },
        NodeKind::TaskListMarkerUnchecked | NodeKind::TaskListMarkerChecked => {
            let checked = kind == NodeKind::TaskListMarkerChecked;
            *pending = Some((checked, start..extend_over_space(rope, end)));
        },
        NodeKind::AtxH1Marker | NodeKind::AtxH2Marker | NodeKind::AtxH3Marker
        | NodeKind::AtxH4Marker | NodeKind::AtxH5Marker | NodeKind::AtxH6Marker => {
            let level: u8 = match kind {
                NodeKind::AtxH1Marker => 1,
                NodeKind::AtxH2Marker => 2,
                NodeKind::AtxH3Marker => 3,
                NodeKind::AtxH4Marker => 4,
                NodeKind::AtxH5Marker => 5,
                _ => 6,
            };
            let range_end = extend_over_space(rope, end);
            push_marker(
                markers,
                Marker { kind: MarkerKind::Heading(level), range: start..range_end },
            );
        },
        NodeKind::ThematicBreak => {
            push_marker(markers, Marker { kind: MarkerKind::ThematicBreak, range: start..end });
        },
        NodeKind::FencedCodeBlockDelimiter => {
            let language = named_language(markers);
            let mut kept = drop_fences(markers);
            let is_opening = node.is_first_fence_delimiter;
            push_marker(
                &mut kept,
                Marker {
                    kind: MarkerKind::CodeBlockFence { language, is_opening },
                    range: start..end,
                },
            );
            *markers = kept;
        },
        NodeKind::InfoString => {
            let content = node_text(rope, start, end);
            let lang = trim(content.as_str());
            let language = if lang.as_str().is_empty() {
                None
            } else {
                Some(lang)
            };
            push_marker(
                markers,
                Marker {
                    kind: MarkerKind::CodeBlockFence { language, is_opening: true },
                    range: start..end,
                },
            );
        },
        _ => {},
    }
}

/// What a waiting checkbox says.
pub open spec fn pending_view(p: Option<(bool, Range<usize>)>) -> Option<(bool, int, int)> {
    match p {
        Some((checked, r)) => Some((checked, r.start as int, r.end as int)),
        None => None,
    }
}

/// Find all markers for a line by scanning the nodes that start within the line.
/// Returns markers innermost to outermost (reverse document order).
/// Takes the nodes from [`collect_node_infos`].
pub fn markers_at_from_infos(
    nodes: &[NodeInfo],
    rope: &ropey::Rope,
    line_start: usize,
    line_end: usize,
) -> (r: Vec<Marker>)
    requires
        infos_in_order(nodes@),
        line_end < usize::MAX,
        is_slice(rope_bytes(*rope), line_start as int, line_end as int),
        forall|i: int|
            0 <= i < nodes@.len() && line_start <= (#[trigger] nodes@[i]).start_byte <= line_end
                && reads_text(nodes@[i]) ==> is_slice(
                rope_bytes(*rope),
                nodes@[i].start_byte as int,
                nodes@[i].end_byte as int,
            ),
    ensures
        markers_view(r@) == line_markers(
            nodes@,
            rope_bytes(*rope),
            line_start as int,
            line_end as int,
        ),
{
    let ghost bytes = rope_bytes(*rope);
    let mut markers: Vec<Marker> = Vec::new();
    let mut pending: Option<(bool, Range<usize>)> = None;
    let end_idx = find_node_info_index(nodes, line_end + 1);
    let mut j: usize = end_idx;
    assert(markers_view(markers@) =~= Seq::<MarkerView>::empty());
    while j > 0 && nodes[j - 1].start_byte >= line_start
        invariant
            j <= end_idx <= nodes@.len(),
            bytes == rope_bytes(*rope),
            forall|k: int| 0 <= k < end_idx ==> (#[trigger] nodes@[k]).start_byte <= line_end,
            forall|k: int| j <= k < end_idx ==> (#[trigger] nodes@[k]).start_byte >= line_start,
            forall|i: int|
                0 <= i < nodes@.len() && line_start <= (#[trigger] nodes@[i]).start_byte
                    <= line_end && reads_text(nodes@[i]) ==> is_slice(
                    bytes,
                    nodes@[i].start_byte as int,
                    nodes@[i].end_byte as int,
                ),
            markers_view(markers@) == line_fold(
                nodes@,
                bytes,
                j as int,
                end_idx as int,
            ).markers,
            pending_view(pending) == line_fold(nodes@, bytes, j as int, end_idx as int).pending,
        decreases j,
    {
        apply_node(&mut markers, &mut pending, &nodes[j - 1], rope);
        j -= 1;
    }
    proof {
        // The nodes before `j` start before the line, those from `j` on do not.
        assert forall|k: int| 0 <= k < j implies (#[trigger] nodes@[k]).start_byte
            < line_start by {
            assert(nodes@[j - 1].start_byte < line_start);
        }
        lemma_first_from_is(nodes@, line_start as int, 0, j as int);
    }
    // The parser gives no delimiter node for a closing fence without a trailing
    // newline. Detect those by their text.
    if !has_fence(&markers) {
        let line_text = node_text(rope, line_start, line_end);
        if looks_like_fence(line_text.as_str()) {
            push_marker(
                &mut markers,
                Marker {
                    kind: MarkerKind::CodeBlockFence { language: None, is_opening: false },
                    range: line_start..line_end,
                },
            );
        }
    }
    markers
}

/// Check if a line is inside a checked task by finding the first node that starts
/// at or after its start.
pub fn is_line_in_checked_task(nodes: &[NodeInfo], line_start: usize) -> (r: bool)
    requires
        infos_in_order(nodes@),
    ensures
        r == ({
            let i = first_from(nodes@, line_start as int, 0);
            i < nodes@.len() && nodes@[i].in_checked_task
        }),
{
    let idx = find_node_info_index(nodes, line_start);
    if idx < nodes.len() {
        nodes[idx].in_checked_task
    } else {
        false
    }
}

/// Check if a line is inside a fenced code block by finding the first node that starts
/// at or after its start.
pub fn is_line_in_code_block(nodes: &[NodeInfo], line_start: usize) -> (r: bool)
    requires
        infos_in_order(nodes@),
    ensures
        r == ({
            let i = first_from(nodes@, line_start as int, 0);
            i < nodes@.len() && nodes@[i].in_code_block
        }),
{
    let idx = find_node_info_index(nodes, line_start);
    if idx < nodes.len() {
        nodes[idx].in_code_block
    } else {
        false
    }
}

// ---------------------------------------------------------------------------
// Collecting nodes
// ---------------------------------------------------------------------------

/// Information about a fenced code block, collected during tree traversal.
#[derive(Debug, Clone, PartialEq)]
pub struct CodeBlockInfo {
    /// Byte range of the entire code block (including fences)
    pub block_range: Range<usize>,
    /// Byte range of the code content (between fences, excluding fence lines)
    pub content_range: Range<usize>,
    /// Byte range of the info_string (language specifier), if any
    pub info_string_range: Option<Range<usize>>,
}

/// Collected parse information from a tree traversal.
/// Contains both the node list and extracted structural info.
#[derive(Debug, Clone)]
pub struct ParsedNodes {
    /// All nodes in the tree, in preorder traversal order
    pub nodes: Vec<NodeInfo>,
    /// Information about fenced code blocks, sorted by start position
    pub code_blocks: Vec<CodeBlockInfo>,
    /// GFM tables, in traversal order
    pub tables: Vec<TableInfo>,
}

impl Default for ParsedNodes {
    fn default() -> (r: Self)
        ensures
            r.nodes@.len() == 0,
            r.code_blocks@.len() == 0,
            r.tables@.len() == 0,
    {
        ParsedNodes { nodes: Vec::new(), code_blocks: Vec::new(), tables: Vec::new() }
    }
}

/// What a [`CodeBlockInfo`] says, with ranges as (start, end).
pub struct CodeBlockView {
    pub block: (int, int),
    pub content: (int, int),
    pub info: Option<(int, int)>,
}

impl View for CodeBlockInfo {
    type V = CodeBlockView;

    open spec fn view(&self) -> CodeBlockView {
        CodeBlockView {
            block: (self.block_range.start as int, self.block_range.end as int),
            content: (self.content_range.start as int, self.content_range.end as int),
            info: range_pair(self.info_string_range),
        }
    }
}

/// Node `j` is a list item with a checked task marker among its children.
pub open spec fn is_checked_item(nodes: Seq<SyntaxNode>, j: int) -> bool {
    nodes[j].kind == NodeKind::ListItem && has_child(nodes, j, NodeKind::TaskListMarkerChecked)
}

/// Node `j`, which is `i` or a node before it, still holds at node `i`: `i` starts
/// before its end.
pub open spec fn holds_at(nodes: Seq<SyntaxNode>, j: int, i: int) -> bool {
    0 <= j <= i && (j == i || nodes[i].start < nodes[j].end)
}

/// Node `i` is, or starts inside, a checked task.
pub open spec fn checked_at(nodes: Seq<SyntaxNode>, i: int) -> bool {
    exists|j: int| #[trigger] holds_at(nodes, j, i) && is_checked_item(nodes, j)
}

/// The last fenced code block up to node `i`; `-1` where there is none.
pub open spec fn last_fence(nodes: Seq<SyntaxNode>, i: int) -> int
    decreases i + 1,
{
    if i < 0 {
        -1
    } else if nodes[i].kind == NodeKind::FencedCodeBlock {
        i
    } else {
        last_fence(nodes, i - 1)
    }
}

/// Node `i` is, or starts inside, the last fenced code block.
pub open spec fn code_at(nodes: Seq<SyntaxNode>, i: int) -> bool {
    let f = last_fence(nodes, i);
    f >= 0 && holds_at(nodes, f, i)
}

/// The kind of the parent of node `i`.
pub open spec fn parent_kind_of(nodes: Seq<SyntaxNode>, i: int) -> Option<NodeKind> {
    if i <= 0 {
        None
    } else {
        Some(nodes[parent_of(depths_of(nodes), i)].kind)
    }
}

/// Node `i` is a delimiter right under a fenced code block.
pub open spec fn is_fence_delimiter(nodes: Seq<SyntaxNode>, i: int) -> bool {
    nodes[i].kind == NodeKind::FencedCodeBlockDelimiter && parent_kind_of(nodes, i) == Some(
        NodeKind::FencedCodeBlock,
    )
}

/// A delimiter of the last fenced code block stands before node `i`.
pub open spec fn delimiter_seen(nodes: Seq<SyntaxNode>, i: int) -> bool {
    exists|k: int| last_fence(nodes, i - 1) < k < i && #[trigger] is_fence_delimiter(nodes, k)
}

/// What is kept of node `i`.
pub open spec fn info_of(nodes: Seq<SyntaxNode>, i: int) -> NodeInfo {
    NodeInfo {
        start_byte: nodes[i].start,
        end_byte: nodes[i].end,
        kind: nodes[i].kind,
        parent_kind: parent_kind_of(nodes, i),
        is_first_fence_delimiter: nodes[i].kind == NodeKind::FencedCodeBlockDelimiter && !(
        parent_kind_of(nodes, i) == Some(NodeKind::FencedCodeBlock) && delimiter_seen(nodes, i)),
        in_checked_task: checked_at(nodes, i),
        in_code_block: code_at(nodes, i),
    }
}

/// A code block's children on their way.
pub struct BlockParts {
    pub content_start: Option<int>,
    pub content_end: Option<int>,
    pub info: Option<(int, int)>,
    pub fences: int,
}

/// The children `kids[..k]` of a code block: the last info string; the content from
/// the first content child (or the first other child after the opening fence) to the
/// end of the last content child, or to the second fence where that comes later.
pub open spec fn block_parts(nodes: Seq<SyntaxNode>, kids: Seq<int>, k: int) -> BlockParts
    decreases k,
{
    if k <= 0 {
        BlockParts { content_start: None, content_end: None, info: None, fences: 0 }
    } else {
        let p = block_parts(nodes, kids, k - 1);
        let c = nodes[kids[k - 1]];
        let first = if p.content_start is Some {
            p.content_start
        } else {
            Some(c.start as int)
        };
        if c.kind == NodeKind::InfoString {
            BlockParts { info: Some((c.start as int, c.end as int)), ..p }
        } else if c.kind == NodeKind::FencedCodeBlockDelimiter {
            BlockParts {
                fences: p.fences + 1,
                content_end: if p.fences == 1 {
                    Some(c.start as int)
                } else {
                    p.content_end
                },
                ..p
            }
        } else if c.kind == NodeKind::CodeFenceContent {
            BlockParts { content_start: first, content_end: Some(c.end as int), ..p }
        } else if p.fences == 1 {
            BlockParts { content_start: first, ..p }
        } else {
            p
        }
    }
}

/// What is kept of the fenced code block node `i`. Where the content has no start or
/// no end, the end of the block stands in.
pub open spec fn code_block_of(nodes: Seq<SyntaxNode>, i: int) -> CodeBlockView {
    let kids = children_of(nodes, i);
    let p = block_parts(nodes, kids, kids.len() as int);
    let end = nodes[i].end as int;
    CodeBlockView {
        block: (nodes[i].start as int, end),
        content: (
            match p.content_start {
                Some(s) => s,
                None => end,
            },
            match p.content_end {
                Some(e) => e,
                None => end,
            },
        ),
        info: p.info,
    }
}

/// The code blocks among the first `k` nodes.
pub open spec fn code_blocks_upto(nodes: Seq<SyntaxNode>, k: int) -> Seq<CodeBlockView>
    decreases k,
{
    if k <= 0 {
        seq![]
    } else {
        let rest = code_blocks_upto(nodes, k - 1);
        if nodes[k - 1].kind == NodeKind::FencedCodeBlock {
            rest.push(code_block_of(nodes, k - 1))
        } else {
            rest
        }
    }
}

/// The tables among the first `k` nodes.
pub open spec fn tables_upto(nodes: Seq<SyntaxNode>, bytes: Seq<u8>, k: int) -> Seq<TableView>
    decreases k,
{
    if k <= 0 {
        seq![]
    } else {
        let rest = tables_upto(nodes, bytes, k - 1);
        match table_of(nodes, bytes, k - 1) {
            Some(t) => rest.push(t),
            None => rest,
        }
    }
}

/// Check if a list_item node contains a checked task marker.
fn list_item_is_checked_task(nodes: &Vec<SyntaxNode>, i: usize) -> (r: bool)
    requires
        i < nodes@.len(),
        nodes@[i as int].depth < usize::MAX,
    ensures
        r == has_child(nodes@, i as int, NodeKind::TaskListMarkerChecked),
{
    any_child(nodes, i, NodeKind::TaskListMarkerChecked)
}

/// What is kept of the fenced code block node `i`.
fn code_block_info(nodes: &Vec<SyntaxNode>, i: usize) -> (r: CodeBlockInfo)
    requires
        i < nodes@.len(),
        nodes@[i as int].depth < usize::MAX,
    ensures
        r@ == code_block_of(nodes@, i as int),
{
    let ghost all = children_of(nodes@, i as int);
    let kids = children(nodes, i);
    let mut content_start: Option<usize> = None;
    let mut content_end: Option<usize> = None;
    let mut info: Option<Range<usize>> = None;
    let mut fences: usize = 0;
    let count = kids.len();
    let mut k: usize = 0;
    while k < count
        invariant
            all == children_of(nodes@, i as int),
            count == kids@.len(),
            k <= count,
            lists(kids@, all),
            forall|x: int| 0 <= x < kids@.len() ==> (#[trigger] kids@[x]) < nodes@.len(),
            fences <= k,
            ({
                let p = block_parts(nodes@, all, k as int);
                &&& p.content_start == opt_int(content_start)
                &&& p.content_end == opt_int(content_end)
                &&& p.info == range_pair(info)
                &&& p.fences == fences
            }),
        decreases count - k,
    {
        let c = nodes[kids[k]];
        match c.kind {
            NodeKind::InfoString => {
                info = Some(c.start..c.end);
            },
            NodeKind::FencedCodeBlockDelimiter => {
                fences += 1;
                if fences == 2 {
                    content_end = Some(c.start);
                }
            },
            NodeKind::CodeFenceContent => {
                if content_start.is_none() {
                    content_start = Some(c.start);
                }
                content_end = Some(c.end);
            },
            _ => {
                if fences == 1 && content_start.is_none() {
                    content_start = Some(c.start);
                }
            },
        }
        k += 1;
    }
    let end = nodes[i].end;
    CodeBlockInfo {
        block_range: nodes[i].start..end,
        content_range: content_start.unwrap_or(end)..content_end.unwrap_or(end),
        info_string_range: info,
    }
}

/// An optional offset as a number.
pub open spec fn opt_int(o: Option<usize>) -> Option<int> {
    match o {
        Some(x) => Some(x as int),
        None => None,
    }
}

/// `open` lists the list items among the first `i` nodes that hold beyond `from`,
/// as (end, checked), from the outermost in.
spec fn open_items(nodes: Seq<SyntaxNode>, open: Seq<(usize, usize, bool)>, i: int, from: int)
    -> bool {
    &&& forall|p: int|
        0 <= p < open.len() ==> {
            let j = (#[trigger] open[p]).0 as int;
            &&& 0 <= j < i
            &&& nodes[j].kind == NodeKind::ListItem
            &&& open[p].1 == nodes[j].end
            &&& open[p].2 == has_child(nodes, j, NodeKind::TaskListMarkerChecked)
        }
    &&& forall|p: int, q: int|
        0 <= p < q < open.len() ==> (#[trigger] open[q]).1 <= (#[trigger] open[p]).1
    &&& forall|j: int|
        0 <= j < i && (#[trigger] nodes[j]).kind == NodeKind::ListItem && nodes[j].end > from
            ==> exists|p: int| 0 <= p < open.len() && (#[trigger] open[p]).0 == j
}

/// `path` lists the ancestors of the next node down to depth `path.len() - 1`: the
/// last node of each depth.
spec fn is_path(nodes: Seq<SyntaxNode>, path: Seq<usize>, i: int) -> bool {
    &&& forall|d: int|
        0 <= d < path.len() ==> (#[trigger] path[d]) < i && nodes[path[d] as int].depth == d && (
        forall|k: int| path[d] < k < i ==> (#[trigger] nodes[k]).depth > d)
}

proof fn lemma_path_parent(nodes: Seq<SyntaxNode>, path: Seq<usize>, i: int)
    requires
        is_walk(depths_of(nodes)),
        0 < i < nodes.len(),
        is_path(nodes, path, i),
        path.len() >= nodes[i].depth,
    ensures
        nodes[i].depth >= 1,
        parent_of(depths_of(nodes), i) == path[nodes[i].depth - 1],
{
    let depths = depths_of(nodes);
    let d = nodes[i].depth as int;
    assert(depths[i] == d);
    let p = path[d - 1] as int;
    assert forall|k: int| p < k < i implies (#[trigger] depths[k]) >= d by {
        assert(nodes[k].depth > d - 1);
    }
    assert(depths[p] == d - 1);
    lemma_last_below_is(depths, d, i - 1, p);
}

proof fn lemma_last_below_is(depths: Seq<int>, d: int, from: int, p: int)
    requires
        0 <= p <= from < depths.len(),
        depths[p] < d,
        forall|k: int| p < k <= from ==> (#[trigger] depths[k]) >= d,
    ensures
        last_below(depths, d, from) == p,
    decreases from - p,
{
    if p < from {
        assert(depths[from] >= d);
        lemma_last_below_is(depths, d, from - 1, p);
    }
}

/// Closing the items that end at or before the start of node `i`.
proof fn lemma_close_items(
    nodes: Seq<SyntaxNode>,
    open: Seq<(usize, usize, bool)>,
    m: int,
    i: int,
    from: int,
)
    requires
        0 <= i < nodes.len(),
        open_items(nodes, open, i, from),
        0 <= m <= open.len(),
        from <= nodes[i].start,
        forall|p: int| m <= p < open.len() ==> (#[trigger] open[p]).1 <= nodes[i].start,
    ensures
        open_items(nodes, open.subrange(0, m), i, nodes[i].start as int),
{
    let kept = open.subrange(0, m);
    assert forall|j: int|
        0 <= j < i && (#[trigger] nodes[j]).kind == NodeKind::ListItem && nodes[j].end
            > nodes[i].start implies exists|p: int|
        0 <= p < kept.len() && (#[trigger] kept[p]).0 == j by {
        let p = choose|p: int| 0 <= p < open.len() && (#[trigger] open[p]).0 == j;
        assert(open[p].1 == nodes[j].end);
        assert(kept[p] == open[p]);
    }
    assert forall|p: int, q: int| 0 <= p < q < kept.len() implies (#[trigger] kept[q]).1 <= (
    #[trigger] kept[p]).1 by {
        assert(kept[p] == open[p] && kept[q] == open[q]);
    }
    assert forall|p: int| 0 <= p < kept.len() implies {
        let j = (#[trigger] kept[p]).0 as int;
        &&& 0 <= j < i
        &&& nodes[j].kind == NodeKind::ListItem
        &&& kept[p].1 == nodes[j].end
        &&& kept[p].2 == has_child(nodes, j, NodeKind::TaskListMarkerChecked)
    } by {
        assert(kept[p] == open[p]);
    }
}

/// Opening node `i`, or passing it where it is no list item.
proof fn lemma_open_item(
    nodes: Seq<SyntaxNode>,
    open: Seq<(usize, usize, bool)>,
    next: Seq<(usize, usize, bool)>,
    i: int,
)
    requires
        0 <= i < nodes.len(),
        i <= usize::MAX,
        open_items(nodes, open, i, nodes[i].start as int),
        forall|p: int| 0 <= p < open.len() ==> (#[trigger] open[p]).1 > nodes[i].start,
        forall|j: int| 0 <= j < i ==> nested_or_apart(nodes, #[trigger] open_id(j), i),
        next == (if nodes[i].kind == NodeKind::ListItem {
            open.push(
                (
                    i as usize,
                    nodes[i].end,
                    has_child(nodes, i, NodeKind::TaskListMarkerChecked),
                ),
            )
        } else {
            open
        }),
    ensures
        open_items(nodes, next, i + 1, nodes[i].start as int),
        checked_at(nodes, i) == (exists|p: int| 0 <= p < next.len() && (#[trigger] next[p]).2),
{
    assert forall|p: int| 0 <= p < open.len() implies nodes[i].end <= (#[trigger] open[p]).1 by {
        let j = open[p].0 as int;
        assert(nested_or_apart(nodes, open_id(j), i));
        assert(nodes[j].end > nodes[i].start);
    }
    assert forall|j: int|
        0 <= j < i + 1 && (#[trigger] nodes[j]).kind == NodeKind::ListItem && nodes[j].end
            > nodes[i].start implies exists|p: int|
        0 <= p < next.len() && (#[trigger] next[p]).0 == j by {
        if j == i {
            assert(next[open.len() as int].0 == j);
        } else {
            let p = choose|p: int| 0 <= p < open.len() && (#[trigger] open[p]).0 == j;
            assert(next[p].0 == j);
        }
    }
    assert forall|p: int, q: int| 0 <= p < q < next.len() implies (#[trigger] next[q]).1 <= (
    #[trigger] next[p]).1 by {
        assert(next[p] == open[p]);
        if q < open.len() {
            assert(next[q] == open[q]);
        }
    }
    if checked_at(nodes, i) {
        let j = choose|j: int| #[trigger] holds_at(nodes, j, i) && is_checked_item(nodes, j);
        if j == i {
            assert(next[open.len() as int].2);
        } else {
            assert(nodes[j].kind == NodeKind::ListItem);
            let p = choose|p: int| 0 <= p < open.len() && (#[trigger] open[p]).0 == j;
            assert(next[p].2);
        }
    }
    if exists|p: int| 0 <= p < next.len() && (#[trigger] next[p]).2 {
        let p = choose|p: int| 0 <= p < next.len() && (#[trigger] next[p]).2;
        if p < open.len() {
            assert(next[p] == open[p]);
            let j = open[p].0 as int;
            assert(holds_at(nodes, j, i) && is_checked_item(nodes, j));
        } else {
            assert(holds_at(nodes, i, i) && is_checked_item(nodes, i));
        }
    }
}

/// An index, as something to quantify over.
spec fn open_id(j: int) -> int {
    j
}

/// The nodes start in order and are nested or apart.
#[verifier::opaque]
spec fn is_ordered(nodes: Seq<SyntaxNode>) -> bool {
    &&& forall|i: int, j: int|
        0 <= i < j < nodes.len() ==> (#[trigger] nodes[i]).start <= (#[trigger] nodes[j]).start
    &&& forall|i: int, j: int|
        #![trigger nodes[i], nodes[j]]
        0 <= i < j < nodes.len() ==> nested_or_apart(nodes, i, j)
}

proof fn lemma_ordered_before(nodes: Seq<SyntaxNode>, i: int)
    requires
        is_ordered(nodes),
        0 <= i < nodes.len(),
    ensures
        i > 0 ==> nodes[i - 1].start <= nodes[i].start,
        forall|j: int| 0 <= j < i ==> nested_or_apart(nodes, #[trigger] open_id(j), i),
{
    reveal(is_ordered);
    assert forall|j: int| 0 <= j < i implies nested_or_apart(nodes, #[trigger] open_id(j), i) by {
        assert(nodes[j].start <= nodes[i].start);
    }
}

/// The tables of a block tree.
fn collect_tables(nodes: &Vec<SyntaxNode>, rope: &ropey::Rope) -> (r: Vec<TableInfo>)
    requires
        tree_fits(nodes@, rope_bytes(*rope)),
    ensures
        r@.map_values(|t: TableInfo| t@) == tables_upto(
            nodes@,
            rope_bytes(*rope),
            nodes@.len() as int,
        ),
{
    let mut tables: Vec<TableInfo> = Vec::new();
    let mut i: usize = 0;
    assert(tables@.map_values(|t: TableInfo| t@) =~= Seq::<TableView>::empty());
    while i < nodes.len()
        invariant
            i <= nodes@.len(),
            tree_fits(nodes@, rope_bytes(*rope)),
            tables@.map_values(|t: TableInfo| t@) == tables_upto(
                nodes@,
                rope_bytes(*rope),
                i as int,
            ),
        decreases nodes@.len() - i,
    {
        if let Some(table) = extract_table(nodes, i, rope) {
            let ghost before = tables@;
            tables.push(table);
            assert(tables@.map_values(|t: TableInfo| t@) =~= before.map_values(
                |t: TableInfo| t@,
            ).push(table@));
        }
        i += 1;
    }
    tables
}

/// The fenced code blocks of a block tree.
fn collect_code_blocks(nodes: &Vec<SyntaxNode>) -> (r: Vec<CodeBlockInfo>)
    requires
        is_walk(depths_of(nodes@)),
    ensures
        r@.map_values(|b: CodeBlockInfo| b@) == code_blocks_upto(nodes@, nodes@.len() as int),
{
    let n = nodes.len();
    let mut blocks: Vec<CodeBlockInfo> = Vec::new();
    let mut i: usize = 0;
    assert(blocks@.map_values(|b: CodeBlockInfo| b@) =~= Seq::<CodeBlockView>::empty());
    while i < n
        invariant
            n == nodes@.len(),
            i <= n,
            is_walk(depths_of(nodes@)),
            blocks@.map_values(|b: CodeBlockInfo| b@) == code_blocks_upto(nodes@, i as int),
        decreases n - i,
    {
        if nodes[i].kind == NodeKind::FencedCodeBlock {
            proof {
                lemma_depth_bound(nodes@, i as int);
            }
            let info = code_block_info(nodes, i);
            let ghost before = blocks@;
            blocks.push(info);
            assert(blocks@.map_values(|b: CodeBlockInfo| b@) =~= before.map_values(
                |b: CodeBlockInfo| b@,
            ).push(info@));
        }
        i += 1;
    }
    blocks
}

/// Closes the list items that end at or before the start of node `i`, and opens the
/// node where it is one. Says whether a checked one is open.
fn next_item(open: &mut Vec<(usize, usize, bool)>, nodes: &Vec<SyntaxNode>, i: usize) -> (r: bool)
    requires
        i < nodes@.len(),
        nodes@[i as int].depth < usize::MAX,
        is_ordered(nodes@),
        open_items(nodes@, old(open)@, i as int, start_before(nodes@, i as int)),
    ensures
        open_items(nodes@, final(open)@, i + 1, start_before(nodes@, i + 1)),
        r == checked_at(nodes@, i as int),
{
    let node = nodes[i];
    proof {
        lemma_ordered_before(nodes@, i as int);
    }
    let mut m = open.len();
    while m > 0 && open[m - 1].1 <= node.start
        invariant
            m <= open@.len(),
            open@ == old(open)@,
            forall|p: int| m <= p < open@.len() ==> (#[trigger] open@[p]).1 <= node.start,
        decreases m,
    {
        m -= 1;
    }
    proof {
        lemma_close_items(
            nodes@,
            open@,
            m as int,
            i as int,
            start_before(nodes@, i as int),
        );
        assert forall|p: int| 0 <= p < m implies (#[trigger] open@[p]).1 > node.start by {
            assert(open@[m - 1].1 > node.start);
        }
    }
    open.truncate(m);
    let ghost kept = open@;
    if node.kind == NodeKind::ListItem {
        open.push((i, node.end, list_item_is_checked_task(nodes, i)));
    }
    proof {
        lemma_open_item(nodes@, kept, open@, i as int);
    }
    any_checked(open)
}

/// Where the node before `i` starts; 0 for the first one.
spec fn start_before(nodes: Seq<SyntaxNode>, i: int) -> int {
    if i > 0 {
        nodes[i - 1].start as int
    } else {
        0
    }
}

/// Brings the path of ancestors to node `i`, and gives the kind of its parent.
fn next_path(path: &mut Vec<usize>, nodes: &Vec<SyntaxNode>, i: usize) -> (r: Option<NodeKind>)
    requires
        i < nodes@.len(),
        is_walk(depths_of(nodes@)),
        is_path(nodes@, old(path)@, i as int),
        i == 0 ==> old(path)@.len() == 0,
        i > 0 ==> old(path)@.len() == nodes@[i - 1].depth + 1,
    ensures
        is_path(nodes@, final(path)@, i + 1),
        final(path)@.len() == nodes@[i as int].depth + 1,
        r == parent_kind_of(nodes@, i as int),
{
    let node = nodes[i];
    proof {
        let depths = depths_of(nodes@);
        assert(depths[i as int] == node.depth);
        if i > 0 {
            assert(depths[i - 1] == nodes@[i - 1].depth);
        }
    }
    let parent_kind = if i == 0 {
        None
    } else {
        proof {
            lemma_path_parent(nodes@, path@, i as int);
        }
        Some(nodes[path[node.depth - 1]].kind)
    };
    path.truncate(node.depth);
    path.push(i);
    proof {
        assert forall|d: int| 0 <= d < path@.len() implies (#[trigger] path@[d]) < i + 1
            && nodes@[path@[d] as int].depth == d && (forall|k: int|
            path@[d] < k < i + 1 ==> (#[trigger] nodes@[k]).depth > d) by {
            if d < node.depth {
                assert(path@[d] == old(path)@[d]);
            }
        }
    }
    parent_kind
}

/// The nodes of a block tree, with what is known of each.
fn collect_infos(nodes: &Vec<SyntaxNode>) -> (r: Vec<NodeInfo>)
    requires
        is_walk(depths_of(nodes@)),
        is_ordered(nodes@),
    ensures
        r@.len() == nodes@.len(),
        forall|i: int| 0 <= i < nodes@.len() ==> (#[trigger] r@[i]) == info_of(nodes@, i),
{
    let n = nodes.len();
    let mut infos: Vec<NodeInfo> = Vec::new();
    // The list items that are still open: index, end and whether it is checked.
    let mut open: Vec<(usize, usize, bool)> = Vec::new();
    // Where the fenced code block ends that is still open.
    let mut code_end: Option<usize> = None;
    // The ancestors of the current node, so its parent is the last of them.
    let mut path: Vec<usize> = Vec::new();
    // Whether the current code block's first delimiter came by.
    let mut delim_seen = false;
    let mut i: usize = 0;
    while i < n
        invariant
            n == nodes@.len(),
            i <= n,
            is_walk(depths_of(nodes@)),
            is_ordered(nodes@),
            infos@.len() == i,
            forall|k: int| 0 <= k < i ==> (#[trigger] infos@[k]) == info_of(nodes@, k),
            open_items(nodes@, open@, i as int, start_before(nodes@, i as int)),
            is_path(nodes@, path@, i as int),
            i == 0 ==> path@.len() == 0,
            i > 0 ==> path@.len() == nodes@[i - 1].depth + 1,
            code_end is Some ==> last_fence(nodes@, i - 1) >= 0 && code_end == Some(
                nodes@[last_fence(nodes@, i - 1)].end,
            ),
            code_end is None ==> last_fence(nodes@, i - 1) < 0 || nodes@[last_fence(
                nodes@,
                i - 1,
            )].end <= start_before(nodes@, i as int),
            delim_seen == delimiter_seen(nodes@, i as int),
        decreases n - i,
    {
        let node = nodes[i];
        proof {
            lemma_depth_bound(nodes@, i as int);
            lemma_last_fence(nodes@, i - 1);
            lemma_ordered_before(nodes@, i as int);
            lemma_delimiter_seen(nodes@, i as int);
        }
        let in_checked_task = next_item(&mut open, nodes, i);
        if let Some(end) = code_end {
            if node.start >= end {
                code_end = None;
            }
        }
        if node.kind == NodeKind::FencedCodeBlock {
            code_end = Some(node.end);
            delim_seen = false;
        }
        let in_code_block = code_end.is_some();
        let parent_kind = next_path(&mut path, nodes, i);
        let under_fence = match parent_kind {
            Some(k) => k == NodeKind::FencedCodeBlock,
            None => false,
        };
        let is_delimiter = node.kind == NodeKind::FencedCodeBlockDelimiter;
        let is_first = is_delimiter && !(under_fence && delim_seen);
        if is_delimiter && under_fence {
            delim_seen = true;
        }
        let info = NodeInfo {
            start_byte: node.start,
            end_byte: node.end,
            kind: node.kind,
            parent_kind,
            is_first_fence_delimiter: is_first,
            in_checked_task,
            in_code_block,
        };
        assert(in_code_block == code_at(nodes@, i as int));
        assert(info == info_of(nodes@, i as int));
        infos.push(info);
        i += 1;
    }
    infos
}

/// Collect all nodes of a block tree as [`NodeInfo`] structs, with the code blocks and
/// the tables among them. Used for lazy [`LineMarkers`] computation during rendering.
pub fn collect_node_infos(nodes: &Vec<SyntaxNode>, rope: &ropey::Rope) -> (r: ParsedNodes)
    requires
        tree_fits(nodes@, rope_bytes(*rope)),
    ensures
        r.nodes@.len() == nodes@.len(),
        forall|i: int| 0 <= i < nodes@.len() ==> (#[trigger] r.nodes@[i]) == info_of(nodes@, i),
        r.code_blocks@.map_values(|b: CodeBlockInfo| b@) == code_blocks_upto(
            nodes@,
            nodes@.len() as int,
        ),
        r.tables@.map_values(|t: TableInfo| t@) == tables_upto(
            nodes@,
            rope_bytes(*rope),
            nodes@.len() as int,
        ),
        infos_in_order(r.nodes@),
{
    proof {
        assert(is_ordered(nodes@)) by {
            reveal(is_ordered);
        }
    }
    let infos = collect_infos(nodes);
    assert forall|a: int, b: int| 0 <= a <= b < infos@.len() implies (
    #[trigger] infos@[a]).start_byte <= (#[trigger] infos@[b]).start_byte by {
        assert(infos@[a] == info_of(nodes@, a));
        assert(infos@[b] == info_of(nodes@, b));
        if a < b {
            assert(nodes@[a].start <= nodes@[b].start);
        }
    }
    ParsedNodes {
        nodes: infos,
        code_blocks: collect_code_blocks(nodes),
        tables: collect_tables(nodes, rope),
    }
}

/// Whether one of the open items is checked.
fn any_checked(open: &Vec<(usize, usize, bool)>) -> (r: bool)
    ensures
        r == (exists|p: int| 0 <= p < open@.len() && (#[trigger] open@[p]).2),
{
    let mut p: usize = 0;
    while p < open.len()
        invariant
            p <= open@.len(),
            forall|q: int| 0 <= q < p ==> !(#[trigger] open@[q]).2,
        decreases open@.len() - p,
    {
        if open[p].2 {
            return true;
        }
        p += 1;
    }
    false
}

proof fn lemma_last_fence(nodes: Seq<SyntaxNode>, i: int)
    requires
        -1 <= i < nodes.len(),
    ensures
        -1 <= last_fence(nodes, i) <= i,
    decreases i + 1,
{
    if i >= 0 {
        lemma_last_fence(nodes, i - 1);
    }
}

/// What is seen after node `i`.
proof fn lemma_delimiter_seen(nodes: Seq<SyntaxNode>, i: int)
    requires
        0 <= i < nodes.len(),
    ensures
        delimiter_seen(nodes, i + 1) == (if nodes[i].kind == NodeKind::FencedCodeBlock {
            false
        } else {
            delimiter_seen(nodes, i) || is_fence_delimiter(nodes, i)
        }),
{
    lemma_last_fence(nodes, i);
    lemma_last_fence(nodes, i - 1);
    if nodes[i].kind != NodeKind::FencedCodeBlock {
        assert(last_fence(nodes, i) == last_fence(nodes, i - 1));
        if delimiter_seen(nodes, i) {
            let k = choose|k: int|
                last_fence(nodes, i - 1) < k < i && #[trigger] is_fence_delimiter(nodes, k);
            assert(last_fence(nodes, i + 1 - 1) < k < i + 1 && is_fence_delimiter(nodes, k));
        }
    }
}

// ---------------------------------------------------------------------------
// Order
// ---------------------------------------------------------------------------

proof fn lemma_code_blocks(nodes: Seq<SyntaxNode>, bytes: Seq<u8>, k: int)
    requires
        tree_fits(nodes, bytes),
        0 <= k <= nodes.len(),
    ensures
        forall|a: int|
            0 <= a < code_blocks_upto(nodes, k).len() ==> k > 0 && (#[trigger] code_blocks_upto(
                nodes,
                k,
            )[a]).block.0 <= nodes[k - 1].start,
        forall|a: int, b: int|
            0 <= a <= b < code_blocks_upto(nodes, k).len() ==> (#[trigger] code_blocks_upto(
                nodes,
                k,
            )[a]).block.0 <= (#[trigger] code_blocks_upto(nodes, k)[b]).block.0,
    decreases k,
{
    if k > 0 {
        lemma_code_blocks(nodes, bytes, k - 1);
        let rest = code_blocks_upto(nodes, k - 1);
        let all = code_blocks_upto(nodes, k);
        assert forall|a: int| 0 <= a < all.len() implies (#[trigger] all[a]).block.0
            <= nodes[k - 1].start by {
            if a < rest.len() {
                assert(all[a] == rest[a]);
                assert(nodes[k - 2].start <= nodes[k - 1].start);
            }
        }
        assert forall|a: int, b: int| 0 <= a <= b < all.len() implies (#[trigger] all[a]).block.0
            <= (#[trigger] all[b]).block.0 by {
            if b < rest.len() {
                assert(all[a] == rest[a] && all[b] == rest[b]);
            }
        }
    }
}

/// The code blocks that are collected are sorted by where they start.
pub proof fn law_code_blocks_in_order(nodes: Seq<SyntaxNode>, bytes: Seq<u8>, a: int, b: int)
    requires
        tree_fits(nodes, bytes),
        0 <= a <= b < code_blocks_upto(nodes, nodes.len() as int).len(),
    ensures
        code_blocks_upto(nodes, nodes.len() as int)[a].block.0 <= code_blocks_upto(
            nodes,
            nodes.len() as int,
        )[b].block.0,
{
    lemma_code_blocks(nodes, bytes, nodes.len() as int);
}

/// No table is inside another.
pub open spec fn tables_apart(nodes: Seq<SyntaxNode>) -> bool {
    forall|i: int, j: int|
        0 <= i < j < nodes.len() && (#[trigger] nodes[i]).kind == NodeKind::PipeTable && (
        #[trigger] nodes[j]).kind == NodeKind::PipeTable ==> subtree_end(depths_of(nodes), i) <= j
}

proof fn lemma_tables(nodes: Seq<SyntaxNode>, bytes: Seq<u8>, k: int)
    requires
        tree_fits(nodes, bytes),
        tables_apart(nodes),
        0 <= k <= nodes.len(),
    ensures
        forall|a: int|
            0 <= a < tables_upto(nodes, bytes, k).len() ==> exists|n: int|
                0 <= n < k && #[trigger] table_of(nodes, bytes, n) == Some(
                    #[trigger] tables_upto(nodes, bytes, k)[a],
                ),
        forall|a: int, b: int|
            0 <= a <= b < tables_upto(nodes, bytes, k).len() ==> (#[trigger] tables_upto(
                nodes,
                bytes,
                k,
            )[a]).block.0 <= (#[trigger] tables_upto(nodes, bytes, k)[b]).block.0,
    decreases k,
{
    if k > 0 {
        lemma_tables(nodes, bytes, k - 1);
        let rest = tables_upto(nodes, bytes, k - 1);
        let all = tables_upto(nodes, bytes, k);
        assert forall|a: int| 0 <= a < all.len() implies exists|n: int|
            0 <= n < k && #[trigger] table_of(nodes, bytes, n) == Some(#[trigger] all[a]) by {
            if a < rest.len() {
                assert(all[a] == rest[a]);
                let n = choose|n: int|
                    0 <= n < k - 1 && #[trigger] table_of(nodes, bytes, n) == Some(rest[a]);
                assert(table_of(nodes, bytes, n) == Some(all[a]));
            } else {
                assert(table_of(nodes, bytes, k - 1) == Some(all[a]));
            }
        }
        assert forall|a: int, b: int| 0 <= a <= b < all.len() implies (#[trigger] all[a]).block.0
            <= (#[trigger] all[b]).block.0 by {
            if b < rest.len() {
                assert(all[a] == rest[a] && all[b] == rest[b]);
            } else if a < b {
                assert(all[a] == rest[a]);
                let n = choose|n: int|
                    0 <= n < k - 1 && #[trigger] table_of(nodes, bytes, n) == Some(rest[a]);
                assert(nodes[n].kind == NodeKind::PipeTable);
                assert(nodes[k - 1].kind == NodeKind::PipeTable);
                lemma_tables_in_order(nodes, bytes, n, k - 1);
            }
        }
    }
}

/// The tables that are collected are sorted by where they start.
pub proof fn law_tables_in_order(nodes: Seq<SyntaxNode>, bytes: Seq<u8>, a: int, b: int)
    requires
        tree_fits(nodes, bytes),
        tables_apart(nodes),
        0 <= a <= b < tables_upto(nodes, bytes, nodes.len() as int).len(),
    ensures
        tables_upto(nodes, bytes, nodes.len() as int)[a].block.0 <= tables_upto(
            nodes,
            bytes,
            nodes.len() as int,
        )[b].block.0,
{
    lemma_tables(nodes, bytes, nodes.len() as int);
}

/// The markers go backwards through the text: from the innermost out.
pub open spec fn in_reverse(ms: Seq<MarkerView>) -> bool {
    forall|i: int, j: int|
        0 <= i <= j < ms.len() ==> (#[trigger] ms[i]).start >= (#[trigger] ms[j]).start
}

/// The nodes that stand for a marker.
pub open spec fn stands_for_marker(kind: NodeKind) -> bool {
    ||| opens_container(kind)
    ||| kind == NodeKind::BlockContinuation
    ||| kind == NodeKind::TaskListMarkerUnchecked
    ||| kind == NodeKind::TaskListMarkerChecked
    ||| atx_level(kind) is Some
    ||| kind == NodeKind::ThematicBreak
    ||| kind == NodeKind::FencedCodeBlockDelimiter
    ||| kind == NodeKind::InfoString
}

/// The quotes and list items of a prefix hold their markers and follow one another.
pub open spec fn prefix_in_place(content: Seq<u8>, nodes: Seq<SyntaxNode>) -> bool {
    &&& forall|k: int|
        0 <= k < nodes.len() && opens_container((#[trigger] nodes[k]).kind) ==> node_marker(
            nodes[k].kind,
            content.subrange(nodes[k].start as int, nodes[k].end as int),
            nodes[k].start as int,
        ) is Some
    &&& forall|k: int, l: int|
        0 <= k < l < nodes.len() && opens_container((#[trigger] nodes[k]).kind)
            && opens_container((#[trigger] nodes[l]).kind) ==> nodes[k].end <= nodes[l].start
}

/// The marker nodes among `lo..hi` are ranges of the text that follow one another; no
/// blanks stand before a list marker; the prefixes of quotes are in place; and a checkbox
/// stands right behind its bullet.
pub open spec fn line_in_place(nodes: Seq<NodeInfo>, bytes: Seq<u8>, lo: int, hi: int) -> bool {
    &&& forall|k: int|
        lo <= k < hi && stands_for_marker((#[trigger] nodes[k]).kind) ==> {
            let text = bytes.subrange(nodes[k].start_byte as int, nodes[k].end_byte as int);
            let after = line_fold(nodes, bytes, k + 1, hi);
            &&& nodes[k].start_byte <= nodes[k].end_byte <= bytes.len()
            &&& is_bullet(nodes[k].kind) || is_number(nodes[k].kind) ==> lead(text) == 0
            &&& nodes[k].kind == NodeKind::BlockQuoteMarker || nodes[k].kind
                == NodeKind::BlockContinuation ==> (parsed_markdown(text) matches Some(t)
                ==> prefix_in_place(text, t.block))
            &&& !is_bullet(nodes[k].kind) && line_step(after, nodes[k], bytes).markers
                != after.markers ==> after.pending is None
        }
    &&& forall|k: int, l: int|
        lo <= k < l < hi && stands_for_marker((#[trigger] nodes[k]).kind) && stands_for_marker(
            (#[trigger] nodes[l]).kind,
        ) ==> nodes[k].end_byte <= nodes[l].start_byte
}

spec fn all_from(ms: Seq<MarkerView>, b: int) -> bool {
    forall|i: int| 0 <= i < ms.len() ==> (#[trigger] ms[i]).start >= b
}

spec fn all_upto(ms: Seq<MarkerView>, b: int) -> bool {
    forall|i: int| 0 <= i < ms.len() ==> (#[trigger] ms[i]).start <= b
}

proof fn lemma_append_in_reverse(ms: Seq<MarkerView>, more: Seq<MarkerView>, b: int)
    requires
        in_reverse(ms),
        in_reverse(more),
        all_from(ms, b),
        all_upto(more, b),
    ensures
        in_reverse(ms + more),
        forall|c: int| all_from(ms, c) && all_from(more, c) ==> #[trigger] all_from(ms + more, c),
        forall|c: int| all_upto(ms, c) && all_upto(more, c) ==> #[trigger] all_upto(ms + more, c),
{
}

proof fn lemma_push_in_reverse(ms: Seq<MarkerView>, m: MarkerView)
    requires
        in_reverse(ms),
        all_from(ms, m.start),
    ensures
        in_reverse(ms.push(m)),
        forall|c: int| all_from(ms, c) && m.start >= c ==> #[trigger] all_from(ms.push(m), c),
{
}

proof fn lemma_without_fences_in_reverse(ms: Seq<MarkerView>)
    requires
        in_reverse(ms),
    ensures
        in_reverse(without_fences(ms)),
        forall|c: int| all_from(ms, c) ==> #[trigger] all_from(without_fences(ms), c),
    decreases ms.len(),
{
    if ms.len() > 0 {
        let init = ms.drop_last();
        lemma_without_fences_in_reverse(init);
        assert(all_from(init, ms.last().start)) by {
            assert(ms.last() == ms[ms.len() - 1]);
        }
        assert(all_from(without_fences(init), ms.last().start));
        lemma_push_in_reverse(without_fences(init), ms.last());
        assert forall|c: int| all_from(ms, c) implies #[trigger] all_from(
            without_fences(ms),
            c,
        ) by {
            assert(all_from(init, c));
            assert(ms.last() == ms[ms.len() - 1]);
        }
    }
}

proof fn lemma_node_marker_start(kind: NodeKind, text: Seq<u8>, start: int)
    ensures
        0 <= lead(text) <= text.len(),
        node_marker(kind, text, start) matches Some(m) ==> start + lead(text) <= m.start <= m.end
            <= start + text.len(),
{
    lemma_blanks(text, 0, text.len() as int);
    lemma_find_byte(text, 0x3e, lead(text));
}

proof fn lemma_prefix_upto(content: Seq<u8>, nodes: Seq<SyntaxNode>, k: int)
    requires
        tree_fits(nodes, content),
        prefix_in_place(content, nodes),
        0 <= k <= nodes.len(),
    ensures
        ({
            let p = prefix_upto(content, nodes, k);
            &&& in_reverse(p.markers)
            &&& all_from(p.markers, 0)
            &&& all_upto(p.markers, p.last_end)
            &&& 0 <= p.last_end <= content.len()
            &&& forall|l: int|
                k <= l < nodes.len() && opens_container((#[trigger] nodes[l]).kind) ==> p.last_end
                    <= nodes[l].start
        }),
    decreases k,
{
    if k > 0 {
        lemma_prefix_upto(content, nodes, k - 1);
        let p = prefix_upto(content, nodes, k - 1);
        let n = nodes[k - 1];
        if opens_container(n.kind) {
            assert(node_fits(n, content));
            let start = n.start as int;
            let text = content.subrange(start, n.end as int);
            lemma_node_marker_start(n.kind, text, start);
            let m = node_marker(n.kind, text, start)->Some_0;
            let indent = node_indent(text, start);
            let ms = if indent is Some && (p.seen || start == 0) {
                seq![indent->Some_0] + p.markers
            } else {
                p.markers
            };
            if indent is Some {
                lemma_append_in_reverse(seq![indent->Some_0], p.markers, start);
            }
            assert(in_reverse(ms) && all_from(ms, 0) && all_upto(ms, start));
            lemma_append_in_reverse(seq![m], ms, m.start);
            let q = prefix_upto(content, nodes, k);
            assert(q.markers == seq![m] + ms);
            assert(all_upto(q.markers, q.last_end));
        }
    }
}

proof fn lemma_continuation_in_reverse(text: Seq<u8>)
    requires
        parsed_markdown(text) matches Some(t) ==> prefix_in_place(text, t.block),
    ensures
        in_reverse(continuation_markers(text)),
        all_from(continuation_markers(text), 0),
        all_upto(continuation_markers(text), text.len() as int),
{
    if let Some(t) = parsed_markdown(text) {
        lemma_prefix_upto(text, t.block, t.block.len() as int);
        let p = prefix_upto(text, t.block, t.block.len() as int);
        let len = text.len() as int;
        let ind = MarkerView { kind: MarkerKindView::Indent, start: p.last_end, end: len };
        lemma_append_in_reverse(seq![ind], p.markers, p.last_end);
        assert(all_upto(p.markers, len));
        assert(all_upto(seq![ind], len));
    }
}

/// What holds of a line's markers after the nodes `j..hi`.
spec fn fold_in_place(
    nodes: Seq<NodeInfo>,
    bytes: Seq<u8>,
    lo: int,
    j: int,
    hi: int,
    floor: int,
) -> bool {
    let s = line_fold(nodes, bytes, j, hi);
    &&& in_reverse(s.markers)
    &&& all_from(s.markers, floor)
    &&& forall|k: int|
        lo <= k < j && stands_for_marker((#[trigger] nodes[k]).kind) ==> all_from(
            s.markers,
            nodes[k].end_byte as int,
        )
    &&& s.pending matches Some((_, cs, _)) ==> {
        &&& all_from(s.markers, cs)
        &&& cs >= floor
        &&& forall|k: int|
            lo <= k < j && stands_for_marker((#[trigger] nodes[k]).kind) ==> cs
                >= nodes[k].end_byte
    }
}

proof fn lemma_line_fold(
    nodes: Seq<NodeInfo>,
    bytes: Seq<u8>,
    lo: int,
    j: int,
    hi: int,
    floor: int,
)
    requires
        0 <= lo <= j <= hi <= nodes.len(),
        line_in_place(nodes, bytes, lo, hi),
        forall|k: int| lo <= k < hi ==> (#[trigger] nodes[k]).start_byte >= floor,
    ensures
        fold_in_place(nodes, bytes, lo, j, hi, floor),
    decreases hi - j,
{
    if j < hi {
        lemma_line_fold(nodes, bytes, lo, j + 1, hi, floor);
        let n = nodes[j];
        let s = line_fold(nodes, bytes, j + 1, hi);
        let after = line_fold(nodes, bytes, j, hi);
        let start = n.start_byte as int;
        let end = n.end_byte as int;
        if stands_for_marker(n.kind) {
            let text = bytes.subrange(start, end);
            lemma_node_marker_start(n.kind, text, start);
            assert(all_from(s.markers, end));
            assert(all_from(s.markers, start));
            if n.kind == NodeKind::BlockQuoteMarker || n.kind == NodeKind::BlockContinuation {
                let more = continuation_markers(text);
                lemma_continuation_in_reverse(text);
                let moved = shifted(more, start);
                assert(in_reverse(moved) && all_from(moved, start) && all_upto(moved, end));
                lemma_append_in_reverse(s.markers, moved, end);
                let ind = MarkerView { kind: MarkerKindView::Indent, start, end };
                lemma_push_in_reverse(s.markers, ind);
            } else if is_bullet(n.kind) {
                let m = node_marker(n.kind, text, start)->Some_0;
                let boxed = match s.pending {
                    Some((checked, cs, ce)) => {
                        let b = MarkerView {
                            kind: MarkerKindView::Checkbox { checked },
                            start: cs,
                            end: ce,
                        };
                        lemma_push_in_reverse(s.markers, b);
                        s.markers.push(b)
                    },
                    None => s.markers,
                };
                lemma_push_in_reverse(boxed, m);
            } else if is_number(n.kind) {
                lemma_push_in_reverse(s.markers, node_marker(n.kind, text, start)->Some_0);
            } else if n.kind == NodeKind::FencedCodeBlockDelimiter {
                lemma_without_fences_in_reverse(s.markers);
                assert(all_from(without_fences(s.markers), start));
                lemma_push_in_reverse(without_fences(s.markers), after.markers.last());
            } else if after.markers != s.markers {
                lemma_push_in_reverse(s.markers, after.markers.last());
            }
        }
    }
}

/// The markers of a line go from the innermost out, backwards through its text.
pub proof fn law_markers_in_reverse(nodes: Seq<NodeInfo>, bytes: Seq<u8>, start: int, end: int)
    requires
        infos_in_order(nodes),
        start <= end,
        line_in_place(
            nodes,
            bytes,
            first_from(nodes, start, 0),
            first_from(nodes, end + 1, 0),
        ),
    ensures
        in_reverse(line_markers(nodes, bytes, start, end)),
{
    let lo = first_from(nodes, start, 0);
    let hi = first_from(nodes, end + 1, 0);
    lemma_first_from(nodes, start, 0);
    lemma_first_from(nodes, end + 1, 0);
    assert forall|k: int| lo <= k < hi implies (#[trigger] nodes[k]).start_byte >= start by {
        assert(nodes[lo].start_byte <= nodes[k].start_byte);
    }
    if hi < lo {
        assert(nodes[hi].start_byte > end);
    }
    lemma_line_fold(nodes, bytes, lo, lo, hi, start);
    let ms = line_fold(nodes, bytes, lo, hi).markers;
    lemma_push_in_reverse(
        ms,
        MarkerView {
            kind: MarkerKindView::CodeBlockFence { language: None, is_opening: false },
            start,
            end,
        },
    );
}

proof fn lemma_first_from(nodes: Seq<NodeInfo>, target: int, i: int)
    requires
        0 <= i <= nodes.len(),
    ensures
        i <= first_from(nodes, target, i) <= nodes.len(),
        first_from(nodes, target, i) < nodes.len() ==> nodes[first_from(
            nodes,
            target,
            i,
        )].start_byte >= target,
        forall|k: int|
            i <= k < first_from(nodes, target, i) ==> (#[trigger] nodes[k]).start_byte < target,
    decreases nodes.len() - i,
{
    if i < nodes.len() && nodes[i].start_byte < target {
        lemma_first_from(nodes, target, i + 1);
    }
}

// ---------------------------------------------------------------------------
// What markers stand for
// ---------------------------------------------------------------------------

proof fn lemma_digits_of(head: Seq<u8>, rest: Seq<u8>, i: int)
    requires
        0 <= i <= head.len(),
        forall|k: int| 0 <= k < head.len() ==> 48 <= #[trigger] head[k] <= 57,
        rest.len() > 0,
        rest[0] < 48 || rest[0] > 57,
    ensures
        digits(head + rest, i) == head.len() - i,
    decreases head.len() - i,
{
    let text = head + rest;
    if i < head.len() {
        assert(text[i] == head[i]);
        lemma_digits_of(head, rest, i + 1);
    } else {
        assert(text[i] == rest[0]);
    }
}

/// The next item of an ordered list has the next number, in the style of the list.
pub proof fn law_numbers_go_up(text: Seq<u8>, n: nat, style: Option<OrderedMarker>, rest: Seq<u8>)
    requires
        text == encode_utf8(decimal(n)) + rest,
        rest.len() > 0,
        rest[0] < 48 || rest[0] > 57,
        n < u32::MAX,
    ensures
        style == Some(OrderedMarker::Parenthesis) ==> incremented(text, style) == decimal(n + 1)
            + seq![')', ' '],
        style != Some(OrderedMarker::Parenthesis) ==> incremented(text, style) == decimal(n + 1)
            + seq!['.', ' '],
{
    lemma_decimal(n);
    let head = encode_utf8(decimal(n));
    assert forall|k: int| 0 <= k < head.len() implies 48 <= #[trigger] head[k] <= 57 by {
        assert(is_digit(head[k]));
    }
    lemma_digits_of(head, rest, 0);
    assert(text.subrange(0, head.len() as int) =~= head);
    reveal_strlit(". ");
    reveal_strlit(") ");
    assert(". "@ =~= seq!['.', ' ']);
    assert(") "@ =~= seq![')', ' ']);
}

/// What continues a line comes from its markers, those further out first.
pub proof fn law_continuations_nest(inner: Seq<MarkerView>, outer: Seq<MarkerView>, bytes: Seq<u8>)
    ensures
        continuation_of(inner + outer, bytes) == continuation_of(outer, bytes) + continuation_of(
            inner,
            bytes,
        ),
        nested_indent(inner + outer, bytes) == nested_indent(outer, bytes) + nested_indent(
            inner,
            bytes,
        ),
        substitutions(inner + outer) == substitutions(outer) + substitutions(inner),
    decreases inner.len(),
{
    if inner.len() == 0 {
        assert(inner + outer =~= outer);
        assert(continuation_of(outer, bytes) + continuation_of(inner, bytes) =~= continuation_of(
            outer,
            bytes,
        ));
        assert(nested_indent(outer, bytes) + nested_indent(inner, bytes) =~= nested_indent(
            outer,
            bytes,
        ));
        assert(substitutions(outer) + substitutions(inner) =~= substitutions(outer));
    } else {
        law_continuations_nest(inner.drop_first(), outer, bytes);
        assert((inner + outer).drop_first() =~= inner.drop_first() + outer);
        assert((inner + outer)[0] == inner[0]);
        assert(continuation_of(inner + outer, bytes) =~= continuation_of(outer, bytes)
            + continuation_of(inner, bytes));
        assert(nested_indent(inner + outer, bytes) =~= nested_indent(outer, bytes) + nested_indent(
            inner,
            bytes,
        ));
        assert(substitutions(inner + outer) =~= substitutions(outer) + substitutions(inner));
    }
}

/// What one marker adds to the next line: quotes, indents and the marks of unordered lists
/// are repeated, ordered lists count on, a task is followed by an open one, and the rest
/// adds nothing.
pub proof fn law_one_marker_continues(m: MarkerView, bytes: Seq<u8>, n: nat)
    requires
        0 <= m.start <= m.end <= bytes.len(),
    ensures
        ({
            let text = bytes.subrange(m.start, m.end);
            let r = continuation_of(seq![m], bytes);
            &&& m.kind is BlockQuote || m.kind is Indent ==> r == decode_utf8(text)
            &&& m.kind is ListItem && !m.kind->ordered ==> r == decode_utf8(text)
            &&& m.kind is ListItem && m.kind->ordered && n < u32::MAX && text == encode_utf8(
                decimal(n) + seq!['.', ' '],
            ) && m.kind->ordered_marker == Some(OrderedMarker::Dot) ==> r == decimal(n + 1)
                + seq!['.', ' ']
            &&& m.kind is ListItem && m.kind->ordered && n < u32::MAX && text == encode_utf8(
                decimal(n) + seq![')', ' '],
            ) && m.kind->ordered_marker == Some(OrderedMarker::Parenthesis) ==> r == decimal(n + 1)
                + seq![')', ' ']
            &&& m.kind is Checkbox ==> r == seq!['[', ' ', ']', ' ']
            &&& m.kind is Heading || m.kind is CodeBlockFence || m.kind is ThematicBreak ==> r.len()
                == 0
        }),
{
    let text = bytes.subrange(m.start, m.end);
    let ms = seq![m];
    assert(ms.drop_first() =~= Seq::<MarkerView>::empty());
    assert(continuation_of(ms.drop_first(), bytes) =~= Seq::<char>::empty());
    assert(continuation_of(ms, bytes) =~= continued(m, bytes));
    reveal_strlit("[ ] ");
    reveal_strlit("");
    assert("[ ] "@ =~= seq!['[', ' ', ']', ' ']);
    assert(""@ =~= Seq::<char>::empty());
    if m.kind is ListItem && m.kind->ordered && n < u32::MAX {
        let dot = seq!['.', ' '];
        let par = seq![')', ' '];
        assert(is_ascii_chars(dot) && is_ascii_chars(par));
        is_ascii_chars_encode_utf8(dot);
        is_ascii_chars_encode_utf8(par);
        assert(dot[0] as u8 == encode_utf8(dot)[0]);
        assert(par[0] as u8 == encode_utf8(par)[0]);
        lemma_encode_concat(decimal(n), dot);
        lemma_encode_concat(decimal(n), par);
        if text == encode_utf8(decimal(n) + dot) {
            law_numbers_go_up(text, n, m.kind->ordered_marker, encode_utf8(dot));
        }
        if text == encode_utf8(decimal(n) + par) {
            law_numbers_go_up(text, n, m.kind->ordered_marker, encode_utf8(par));
        }
    }
}

/// Whatever the state of a task in an unordered list, the next one is open: the mark of the
/// list is followed by an empty box.
pub proof fn law_next_task_is_open(
    boxed: MarkerView,
    item: MarkerView,
    bytes: Seq<u8>,
    checked: bool,
)
    requires
        boxed.kind == (MarkerKindView::Checkbox { checked }),
        item.kind is ListItem,
        !item.kind->ordered,
        0 <= item.start <= item.end <= bytes.len(),
        0 <= boxed.start <= boxed.end <= bytes.len(),
    ensures
        continuation_of(seq![boxed, item], bytes) == decode_utf8(
            bytes.subrange(item.start, item.end),
        ) + seq!['[', ' ', ']', ' '],
{
    law_continuations_nest(seq![boxed], seq![item], bytes);
    assert(seq![boxed, item] =~= seq![boxed] + seq![item]);
    law_one_marker_continues(boxed, bytes, 0);
    law_one_marker_continues(item, bytes, 0);
}

/// What one marker adds to the indent of a paragraph under it: a quote goes on, a list is
/// replaced by as many spaces as its mark is wide, an indent is repeated, and the rest adds
/// nothing.
pub proof fn law_one_marker_indents(m: MarkerView, bytes: Seq<u8>)
    requires
        0 <= m.start <= m.end <= bytes.len(),
    ensures
        ({
            let r = nested_indent(seq![m], bytes);
            &&& m.kind is BlockQuote ==> r == seq!['>', ' ']
            &&& m.kind is Indent ==> r == decode_utf8(bytes.subrange(m.start, m.end))
            &&& m.kind is ListItem && !m.kind->ordered ==> r == seq![' ', ' ']
            &&& m.kind is ListItem && m.kind->ordered ==> r.len() == m.end - m.start && forall|
                i: int,
            |
                0 <= i < r.len() ==> #[trigger] r[i] == ' '
            &&& m.kind is Checkbox || m.kind is Heading || m.kind is CodeBlockFence
                || m.kind is ThematicBreak ==> r.len() == 0
        }),
{
    let ms = seq![m];
    assert(ms.drop_first() =~= Seq::<MarkerView>::empty());
    assert(nested_indent(ms.drop_first(), bytes) =~= Seq::<char>::empty());
    assert(nested_indent(ms, bytes) =~= nested(m, bytes));
    reveal_strlit("> ");
    reveal_strlit("  ");
    assert("> "@ =~= seq!['>', ' ']);
    assert("  "@ =~= seq![' ', ' ']);
}

/// What a marker is shown as in place of its text.
pub proof fn law_substitutions(k: MarkerKindView)
    ensures
        k is BlockQuote || k is Indent ==> k.substitution() == seq![' ', ' '],
        k is ListItem && k->ordered ==> k.substitution().len() == 0,
        k is ListItem && !k->ordered && k->unordered_marker == Some(UnorderedMarker::Star)
            ==> k.substitution() == seq!['◦', ' '],
        k is ListItem && !k->ordered && k->unordered_marker == Some(UnorderedMarker::Plus)
            ==> k.substitution() == seq!['‣', ' '],
        k is ListItem && !k->ordered && (k->unordered_marker == Some(UnorderedMarker::Minus)
            || k->unordered_marker is None) ==> k.substitution() == seq!['•', ' '],
        k == (MarkerKindView::Checkbox { checked: true }) ==> k.substitution() == seq![
            '[',
            'x',
            ']',
            ' ',
        ],
        k == (MarkerKindView::Checkbox { checked: false }) ==> k.substitution() == seq![
            '[',
            ' ',
            ']',
            ' ',
        ],
        k is Heading || k is CodeBlockFence || k is ThematicBreak ==> k.substitution().len() == 0,
{
    reveal_strlit("");
    reveal_strlit("  ");
    reveal_strlit("• ");
    reveal_strlit("◦ ");
    reveal_strlit("‣ ");
    reveal_strlit("[x] ");
    reveal_strlit("[ ] ");
    assert("  "@ =~= seq![' ', ' ']);
    assert("• "@ =~= seq!['•', ' ']);
    assert("◦ "@ =~= seq!['◦', ' ']);
    assert("‣ "@ =~= seq!['‣', ' ']);
    assert("[x] "@ =~= seq!['[', 'x', ']', ' ']);
    assert("[ ] "@ =~= seq!['[', ' ', ']', ' ']);
}

/// The text that Enter puts in for a kind of marker.
pub proof fn law_kinds_continue(k: MarkerKindView)
    ensures
        k is BlockQuote ==> k.continuation() == seq!['>', ' '],
        k is ListItem && k->ordered ==> k.continuation() == seq!['1', '.', ' '],
        k is ListItem && !k->ordered ==> k.continuation() == seq!['-', ' '],
        k is Checkbox ==> k.continuation() == seq!['[', ' ', ']', ' '],
        k is Heading || k is CodeBlockFence || k is ThematicBreak || k is Indent
            ==> k.continuation().len() == 0,
{
    reveal_strlit("");
    reveal_strlit("> ");
    reveal_strlit("1. ");
    reveal_strlit("- ");
    reveal_strlit("[ ] ");
    assert("> "@ =~= seq!['>', ' ']);
    assert("1. "@ =~= seq!['1', '.', ' ']);
    assert("- "@ =~= seq!['-', ' ']);
    assert("[ ] "@ =~= seq!['[', ' ', ']', ' ']);
}

/// What the status bar calls the kinds of markers: as they are written.
pub proof fn law_status_names(k: MarkerKindView)
    ensures
        k is BlockQuote ==> k.status_bar_str() == seq!['>'],
        k is ListItem && !k->ordered && k->unordered_marker == Some(UnorderedMarker::Star)
            ==> k.status_bar_str() == seq!['*'],
        k is ListItem && !k->ordered && k->unordered_marker == Some(UnorderedMarker::Plus)
            ==> k.status_bar_str() == seq!['+'],
        k is ListItem && !k->ordered && (k->unordered_marker == Some(UnorderedMarker::Minus)
            || k->unordered_marker is None) ==> k.status_bar_str() == seq!['-'],
        k is ListItem && k->ordered && k->number is Some && k->ordered_marker == Some(
            OrderedMarker::Dot,
        ) ==> k.status_bar_str() == decimal(k->number->0 as nat) + seq!['.'],
        k is ListItem && k->ordered && k->number is Some && k->ordered_marker == Some(
            OrderedMarker::Parenthesis,
        ) ==> k.status_bar_str() == decimal(k->number->0 as nat) + seq![')'],
        k is ListItem && k->ordered && k->number is None && k->ordered_marker == Some(
            OrderedMarker::Dot,
        ) ==> k.status_bar_str() == seq!['1', '.'],
        k == (MarkerKindView::Checkbox { checked: true }) ==> k.status_bar_str() == seq![
            '[',
            'x',
            ']',
        ],
        k == (MarkerKindView::Checkbox { checked: false }) ==> k.status_bar_str() == seq![
            '[',
            ' ',
            ']',
        ],
        k is CodeBlockFence && k->language is None ==> k.status_bar_str() == seq!['`', '`', '`'],
        k is CodeBlockFence && k->language is Some ==> k.status_bar_str() == seq!['`', '`', '`']
            + k->language->0,
        k is Heading ==> k.status_bar_str() == seq!['H'] + decimal(k->Heading_0 as nat),
        k is ThematicBreak ==> k.status_bar_str() == seq!['-', '-', '-'],
        k is Indent ==> k.status_bar_str().len() == 0,
{
    reveal_strlit("");
    reveal_strlit(">");
    reveal_strlit("*");
    reveal_strlit("+");
    reveal_strlit("-");
    reveal_strlit(".");
    reveal_strlit(")");
    reveal_strlit("[x]");
    reveal_strlit("[ ]");
    reveal_strlit("```");
    reveal_strlit("H");
    reveal_strlit("---");
    assert(">"@ =~= seq!['>']);
    assert("*"@ =~= seq!['*']);
    assert("+"@ =~= seq!['+']);
    assert("-"@ =~= seq!['-']);
    assert("."@ =~= seq!['.']);
    assert(")"@ =~= seq![')']);
    assert("[x]"@ =~= seq!['[', 'x', ']']);
    assert("[ ]"@ =~= seq!['[', ' ', ']']);
    assert("```"@ =~= seq!['`', '`', '`']);
    assert("H"@ =~= seq!['H']);
    assert("---"@ =~= seq!['-', '-', '-']);
    assert(decimal(1) =~= seq!['1']);
    assert(seq!['1'] + seq!['.'] =~= seq!['1', '.']);
}

/// The blanks after a prefix are spaces and tabs, as many as there are in a row.
pub proof fn law_blanks_are_the_blanks(bytes: Seq<u8>, i: int, end: int)
    requires
        0 <= i <= end <= bytes.len(),
    ensures
        ({
            let n = blanks(bytes, i, end);
            &&& 0 <= n <= end - i
            &&& forall|k: int| i <= k < i + n ==> #[trigger] bytes[k] == 32 || bytes[k] == 9
            &&& i + n < end ==> bytes[i + n] != 32 && bytes[i + n] != 9
        }),
    decreases end - i,
{
    if i < end && (bytes[i] == 32 || bytes[i] == 9) {
        law_blanks_are_the_blanks(bytes, i + 1, end);
    }
}

// ---------------------------------------------------------------------------
// Laws of what markers are found
// ---------------------------------------------------------------------------

/// Every marker counts among all; checkboxes are no spacers; only quotes and indents are
/// prefixes.
pub proof fn law_classes(k: MarkerKindView)
    ensures
        MarkerClass::All.holds(k),
        MarkerClass::Spacer.holds(k) <==> !(k is Checkbox),
        MarkerClass::Prefix.holds(k) <==> k is Indent || k is BlockQuote,
{
}

/// The span of markers is empty where none is of the class; the one marker of a class is its
/// span; one marker more takes the span as far as it reaches.
pub proof fn law_spans(ms: Seq<MarkerView>, m: MarkerView, class: MarkerClass)
    ensures
        span(seq![], class) is None,
        !class.holds(m.kind) ==> span(ms.push(m), class) == span(ms, class),
        class.holds(m.kind) && span(ms, class) is None ==> span(ms.push(m), class) == Some(
            (m.start, m.end),
        ),
        class.holds(m.kind) ==> (span(ms, class) matches Some(s) ==> span(ms.push(m), class)
            == Some(
            (
                if m.start < s.0 {
                    m.start
                } else {
                    s.0
                },
                if m.end > s.1 {
                    m.end
                } else {
                    s.1
                },
            ),
        )),
{
    let all = ms.push(m);
    assert(all.drop_last() =~= ms);
    assert(all.last() == m);
    let s = of_class(ms, class);
    if class.holds(m.kind) {
        assert(of_class(all, class) == s.push(m));
        assert(s.push(m).drop_last() =~= s);
        assert(s.push(m).last() == m);
    }
}

/// A line has the marker of each heading, with the space behind it; the level is the number
/// of its `#`s.
pub proof fn law_heading_markers(n: NodeInfo, bytes: Seq<u8>)
    ensures
        ({
            let ms = line_fold(seq![n], bytes, 0, 1).markers;
            let end = if n.end_byte < bytes.len() && bytes[n.end_byte as int] == ' ' as u8 {
                n.end_byte + 1
            } else {
                n.end_byte as int
            };
            let heading = |level: u8| seq![
                MarkerView {
                    kind: MarkerKindView::Heading(level),
                    start: n.start_byte as int,
                    end,
                },
            ];
            &&& n.kind == NodeKind::AtxH1Marker ==> ms == heading(1)
            &&& n.kind == NodeKind::AtxH2Marker ==> ms == heading(2)
            &&& n.kind == NodeKind::AtxH3Marker ==> ms == heading(3)
            &&& n.kind == NodeKind::AtxH4Marker ==> ms == heading(4)
            &&& n.kind == NodeKind::AtxH5Marker ==> ms == heading(5)
            &&& n.kind == NodeKind::AtxH6Marker ==> ms == heading(6)
            &&& n.kind == NodeKind::ThematicBreak ==> ms == seq![
                MarkerView {
                    kind: MarkerKindView::ThematicBreak,
                    start: n.start_byte as int,
                    end: n.end_byte as int,
                },
            ]
        }),
{
    assert(' ' as u8 == 0x20);
    lemma_one_node(n, bytes);
}

proof fn lemma_one_node(n: NodeInfo, bytes: Seq<u8>)
    ensures
        line_fold(seq![n], bytes, 0, 1) == line_step(
            LineState { markers: seq![], pending: None },
            n,
            bytes,
        ),
{
    assert(seq![n][0] == n);
    assert(line_fold(seq![n], bytes, 1, 1) == (LineState { markers: seq![], pending: None }));
}

/// The text starts with `k` blanks and then something else.
pub open spec fn blanks_then(text: Seq<u8>, k: int) -> bool {
    &&& 0 <= k < text.len()
    &&& forall|i: int| 0 <= i < k ==> (#[trigger] text[i]) == 0x20 || text[i] == 0x09
    &&& text[k] != 0x20 && text[k] != 0x09
}

proof fn lemma_lead(text: Seq<u8>, k: int)
    requires
        blanks_then(text, k),
    ensures
        lead(text) == k,
{
    lemma_blanks_from(text, 0, k);
}

proof fn lemma_blanks_from(text: Seq<u8>, i: int, k: int)
    requires
        blanks_then(text, k),
        0 <= i <= k,
    ensures
        blanks(text, i, text.len() as int) == k - i,
    decreases k - i,
{
    if i < k {
        assert(text[i] == 0x20 || text[i] == 0x09);
        lemma_blanks_from(text, i + 1, k);
    }
}

/// A list marker is its text behind the blanks; the blanks before it are an indent. Its kind
/// is the sign it is written with.
pub proof fn law_list_markers(kind: NodeKind, text: Seq<u8>, start: int, k: int)
    requires
        blanks_then(text, k),
    ensures
        ({
            let m = node_marker(kind, text, start);
            let bullet = |u: UnorderedMarker| Some(
                MarkerView {
                    kind: MarkerKindView::ListItem {
                        ordered: false,
                        unordered_marker: Some(u),
                        ordered_marker: None,
                        number: None,
                    },
                    start: start + k,
                    end: start + text.len(),
                },
            );
            let number = |o: OrderedMarker| MarkerView {
                kind: MarkerKindView::ListItem {
                    ordered: true,
                    unordered_marker: None,
                    ordered_marker: Some(o),
                    number: marker_number(text),
                },
                start: start + k,
                end: start + text.len(),
            };
            &&& kind == NodeKind::ListMarkerMinus ==> m == bullet(UnorderedMarker::Minus)
            &&& kind == NodeKind::ListMarkerStar ==> m == bullet(UnorderedMarker::Star)
            &&& kind == NodeKind::ListMarkerPlus ==> m == bullet(UnorderedMarker::Plus)
            &&& kind == NodeKind::ListMarkerDot ==> m == Some(number(OrderedMarker::Dot))
            &&& kind == NodeKind::ListMarkerParenthesis ==> m == Some(
                number(OrderedMarker::Parenthesis),
            )
            &&& k > 0 ==> node_indent(text, start) == Some(
                MarkerView { kind: MarkerKindView::Indent, start, end: start + k },
            )
            &&& k == 0 ==> node_indent(text, start) is None
        }),
{
    lemma_lead(text, k);
}

/// A quote marker is its `>` and the one space behind it, if there is one.
pub proof fn law_quote_markers(text: Seq<u8>, start: int, k: int)
    requires
        blanks_then(text, k),
    ensures
        text[k] == '>' as u8 && k + 1 < text.len() && text[k + 1] == ' ' as u8 ==> node_marker(
            NodeKind::BlockQuoteMarker,
            text,
            start,
        ) == Some(
            MarkerView { kind: MarkerKindView::BlockQuote, start: start + k, end: start + k + 2 },
        ),
        text[k] == '>' as u8 && (k + 1 == text.len() || text[k + 1] != ' ' as u8) ==> node_marker(
            NodeKind::BlockQuoteMarker,
            text,
            start,
        ) == Some(
            MarkerView { kind: MarkerKindView::BlockQuote, start: start + k, end: start + k + 1 },
        ),
{
    assert('>' as u8 == 0x3e && ' ' as u8 == 0x20);
    lemma_lead(text, k);
}

/// The number of an ordered item is the one that it is written with.
pub proof fn law_item_numbers(n: u32, rest: Seq<u8>)
    requires
        rest.len() > 0,
        rest[0] < 0x30 || rest[0] > 0x39,
    ensures
        marker_number(encode_utf8(decimal(n as nat)) + rest) == Some(n),
{
    lemma_decimal(n as nat);
    let e = encode_utf8(decimal(n as nat));
    let text = e + rest;
    assert(text[0] == e[0]);
    assert(is_digit(e[0]));
    assert(blanks_then(text, 0));
    lemma_lead(text, 0);
    lemma_digits_of(e, rest, 0);
    assert(text.subrange(0, e.len() as int) =~= e);
}

/// A task has its checkbox, with the space behind it, and the list marker before it: the
/// checkbox is inside the list item. It is checked where its node says so.
pub proof fn law_task_markers(bullet: NodeInfo, task: NodeInfo, bytes: Seq<u8>)
    requires
        bullet.kind == NodeKind::ListMarkerMinus,
        task.kind == NodeKind::TaskListMarkerChecked || task.kind
            == NodeKind::TaskListMarkerUnchecked,
        bullet.start_byte < bullet.end_byte <= bytes.len(),
        bytes[bullet.start_byte as int] == '-' as u8,
    ensures
        ({
            let end = if task.end_byte < bytes.len() && bytes[task.end_byte as int] == ' ' as u8 {
                task.end_byte + 1
            } else {
                task.end_byte as int
            };
            line_fold(seq![bullet, task], bytes, 0, 2).markers == seq![
                MarkerView {
                    kind: MarkerKindView::Checkbox {
                        checked: task.kind == NodeKind::TaskListMarkerChecked,
                    },
                    start: task.start_byte as int,
                    end,
                },
                MarkerView {
                    kind: MarkerKindView::ListItem {
                        ordered: false,
                        unordered_marker: Some(UnorderedMarker::Minus),
                        ordered_marker: None,
                        number: None,
                    },
                    start: bullet.start_byte as int,
                    end: bullet.end_byte as int,
                },
            ]
        }),
{
    assert(' ' as u8 == 0x20 && '-' as u8 == 0x2d);
    let nodes = seq![bullet, task];
    let text = bytes.subrange(bullet.start_byte as int, bullet.end_byte as int);
    assert(text[0] == bytes[bullet.start_byte as int]);
    assert(blanks_then(text, 0));
    lemma_lead(text, 0);
    assert(nodes[0] == bullet && nodes[1] == task);
    let s0 = LineState { markers: seq![], pending: None };
    assert(line_fold(nodes, bytes, 2, 2) == s0);
    let s1 = line_fold(nodes, bytes, 1, 2);
    assert(s1 == line_step(s0, task, bytes));
    assert(s1.markers =~= seq![]);
    let end = over_space(bytes, task.end_byte as int);
    assert(s1.pending == Some(
        (task.kind == NodeKind::TaskListMarkerChecked, task.start_byte as int, end),
    ));
    let s2 = line_fold(nodes, bytes, 0, 2);
    assert(s2 == line_step(s1, bullet, bytes));
    let item = MarkerView {
        kind: MarkerKindView::ListItem {
            ordered: false,
            unordered_marker: Some(UnorderedMarker::Minus),
            ordered_marker: None,
            number: None,
        },
        start: bullet.start_byte as int,
        end: bullet.end_byte as int,
    };
    let boxed = MarkerView {
        kind: MarkerKindView::Checkbox { checked: task.kind == NodeKind::TaskListMarkerChecked },
        start: task.start_byte as int,
        end,
    };
    assert(s2.markers =~= seq![boxed, item]);
}

/// An opening fence with an info string is one marker: the fence, with the language that the
/// info string names. A fence alone has none, and opens the block where it is its first.
pub proof fn law_fence_markers(fence: NodeInfo, info: NodeInfo, bytes: Seq<u8>)
    requires
        fence.kind == NodeKind::FencedCodeBlockDelimiter,
        info.kind == NodeKind::InfoString,
        trimmed(
            decode_utf8(bytes.subrange(info.start_byte as int, info.end_byte as int)),
        ).len() > 0,
    ensures
        line_fold(seq![fence], bytes, 0, 1).markers == seq![
            MarkerView {
                kind: MarkerKindView::CodeBlockFence {
                    language: None,
                    is_opening: fence.is_first_fence_delimiter,
                },
                start: fence.start_byte as int,
                end: fence.end_byte as int,
            },
        ],
        line_fold(seq![fence, info], bytes, 0, 2).markers == seq![
            MarkerView {
                kind: MarkerKindView::CodeBlockFence {
                    language: Some(
                        trimmed(
                            decode_utf8(
                                bytes.subrange(info.start_byte as int, info.end_byte as int),
                            ),
                        ),
                    ),
                    is_opening: fence.is_first_fence_delimiter,
                },
                start: fence.start_byte as int,
                end: fence.end_byte as int,
            },
        ],
{
    lemma_one_node(fence, bytes);
    let none = Seq::<MarkerView>::empty();
    assert(without_fences(none) =~= none);
    assert(line_fold(seq![fence], bytes, 0, 1).markers.len() == 1);
    let nodes = seq![fence, info];
    assert(nodes[0] == fence && nodes[1] == info);
    let s0 = LineState { markers: seq![], pending: None };
    assert(line_fold(nodes, bytes, 2, 2) == s0);
    let s1 = line_fold(nodes, bytes, 1, 2);
    assert(s1 == line_step(s0, info, bytes));
    assert(s1.markers.len() == 1);
    assert(s1.markers[0].kind is CodeBlockFence);
    assert(s1.markers.drop_last() =~= none);
    assert(s1.markers.last() == s1.markers[0]);
    assert(without_fences(s1.markers) =~= none);
    let s2 = line_fold(nodes, bytes, 0, 2);
    assert(s2 == line_step(s1, fence, bytes));
    assert(s2.markers.len() == 1);
}

/// A line that holds nothing but three or more backticks or tildes closes a code block, even
/// where no node says so; any other line without nodes has no markers.
pub proof fn law_bare_fences(bytes: Seq<u8>, start: int, end: int)
    ensures
        ({
            let text = trimmed(decode_utf8(bytes.subrange(start, end)));
            let ms = line_markers(seq![], bytes, start, end);
            let same = |c: char| forall|i: int| 0 <= i < text.len() ==> #[trigger] text[i] == c;
            &&& text.len() >= 3 && (same('`') || same('~')) ==> ms == seq![
                MarkerView {
                    kind: MarkerKindView::CodeBlockFence { language: None, is_opening: false },
                    start,
                    end,
                },
            ]
            &&& text.len() < 3 ==> ms.len() == 0
            &&& text.len() > 0 && text[0] != '`' && text[0] != '~' ==> ms.len() == 0
        }),
{
    let none = Seq::<NodeInfo>::empty();
    assert(first_from(none, start, 0) == 0);
    assert(first_from(none, end + 1, 0) == 0);
    assert(line_fold(none, bytes, 0, 0).markers =~= seq![]);
}

/// The markers of a line are those of the nodes that start on it: nodes that start before or
/// behind it add nothing.
pub proof fn law_nodes_of_a_line(nodes: Seq<NodeInfo>, a: int, b: int, start: int, end: int)
    requires
        0 <= a <= b <= nodes.len(),
        forall|i: int| 0 <= i < a ==> (#[trigger] nodes[i]).start_byte < start,
        forall|i: int| a <= i < b ==> start <= (#[trigger] nodes[i]).start_byte <= end,
        forall|i: int| b <= i < nodes.len() ==> (#[trigger] nodes[i]).start_byte > end,
        start <= end,
    ensures
        first_from(nodes, start, 0) == a,
        first_from(nodes, end + 1, 0) == b,
{
    lemma_first_skip(nodes, start, 0, a);
    assert forall|i: int| 0 <= i < b implies (#[trigger] nodes[i]).start_byte < end + 1 by {
        if i < a {
        }
    }
    lemma_first_skip(nodes, end + 1, 0, b);
    if a < nodes.len() {
        assert(nodes[a].start_byte >= start) by {
            if a >= b {
                assert(nodes[a].start_byte > end);
            }
        }
    }
}

proof fn lemma_first_skip(nodes: Seq<NodeInfo>, target: int, i: int, to: int)
    requires
        0 <= i <= to <= nodes.len(),
        forall|k: int| i <= k < to ==> (#[trigger] nodes[k]).start_byte < target,
    ensures
        first_from(nodes, target, i) == first_from(nodes, target, to),
    decreases to - i,
{
    if i < to {
        assert(nodes[i].start_byte < target);
        lemma_first_skip(nodes, target, i + 1, to);
    }
}

/// The code of a fenced block with an info string is between its two fences: from where its
/// content starts to where the closing fence starts. Without a closing fence it ends where
/// its content ends.
pub proof fn law_code_blocks(nodes: Seq<SyntaxNode>, i: int)
    requires
        children_of(nodes, i).len() == 4 || children_of(nodes, i).len() == 3,
        nodes[children_of(nodes, i)[0]].kind == NodeKind::FencedCodeBlockDelimiter,
        nodes[children_of(nodes, i)[1]].kind == NodeKind::InfoString,
        nodes[children_of(nodes, i)[2]].kind == NodeKind::CodeFenceContent,
        children_of(nodes, i).len() == 4 ==> nodes[children_of(nodes, i)[3]].kind
            == NodeKind::FencedCodeBlockDelimiter,
    ensures
        ({
            let kids = children_of(nodes, i);
            let b = code_block_of(nodes, i);
            &&& b.block == (nodes[i].start as int, nodes[i].end as int)
            &&& b.info == Some((nodes[kids[1]].start as int, nodes[kids[1]].end as int))
            &&& b.content.0 == nodes[kids[2]].start
            &&& kids.len() == 4 ==> b.content.1 == nodes[kids[3]].start
            &&& kids.len() == 3 ==> b.content.1 == nodes[kids[2]].end
        }),
{
    reveal_with_fuel(block_parts, 5);
}

/// A block without content, info string and closing fence is empty at its end.
pub proof fn law_empty_code_blocks(nodes: Seq<SyntaxNode>, i: int)
    requires
        children_of(nodes, i).len() == 1,
        nodes[children_of(nodes, i)[0]].kind == NodeKind::FencedCodeBlockDelimiter,
    ensures
        code_block_of(nodes, i).content == (nodes[i].end as int, nodes[i].end as int),
        code_block_of(nodes, i).info is None,
{
    reveal_with_fuel(block_parts, 2);
}

/// What is kept of a node: it is in a completed task where it starts inside a list item with a
/// checked box, and in code where it starts inside the last fenced block before it.
pub proof fn law_where_nodes_are(nodes: Seq<SyntaxNode>, j: int, x: int, i: int)
    requires
        0 <= j <= i < nodes.len(),
    ensures
        ({
            let n = info_of(nodes, i);
            let holds = j == i || nodes[i].start < nodes[j].end;
            &&& n.start_byte == nodes[i].start && n.end_byte == nodes[i].end && n.kind
                == nodes[i].kind
            &&& nodes[j].kind == NodeKind::ListItem && 0 <= x < children_of(nodes, j).len()
                && nodes[children_of(nodes, j)[x]].kind == NodeKind::TaskListMarkerChecked && holds
                ==> n.in_checked_task
            &&& (forall|k: int|
                0 <= k <= i ==> (#[trigger] nodes[k]).kind != NodeKind::ListItem)
                ==> !n.in_checked_task
            &&& nodes[j].kind == NodeKind::FencedCodeBlock && (forall|k: int|
                j < k <= i ==> (#[trigger] nodes[k]).kind != NodeKind::FencedCodeBlock)
                ==> n.in_code_block == holds
            &&& (forall|k: int|
                0 <= k <= i ==> (#[trigger] nodes[k]).kind != NodeKind::FencedCodeBlock)
                ==> !n.in_code_block
        }),
{
    if nodes[j].kind == NodeKind::ListItem && 0 <= x < children_of(nodes, j).len()
        && nodes[children_of(nodes, j)[x]].kind == NodeKind::TaskListMarkerChecked && (j == i
        || nodes[i].start < nodes[j].end) {
        assert(has_child(nodes, j, NodeKind::TaskListMarkerChecked));
        assert(holds_at(nodes, j, i));
    }
    if nodes[j].kind == NodeKind::FencedCodeBlock && forall|k: int|
        j < k <= i ==> (#[trigger] nodes[k]).kind != NodeKind::FencedCodeBlock {
        lemma_last_fence_is(nodes, j, i);
    }
    if forall|k: int| 0 <= k <= i ==> (#[trigger] nodes[k]).kind != NodeKind::FencedCodeBlock {
        lemma_no_last_fence(nodes, i);
    }
}

proof fn lemma_last_fence_is(nodes: Seq<SyntaxNode>, j: int, i: int)
    requires
        0 <= j <= i < nodes.len(),
        nodes[j].kind == NodeKind::FencedCodeBlock,
        forall|k: int| j < k <= i ==> (#[trigger] nodes[k]).kind != NodeKind::FencedCodeBlock,
    ensures
        last_fence(nodes, i) == j,
    decreases i,
{
    if j < i {
        assert(nodes[i].kind != NodeKind::FencedCodeBlock);
        lemma_last_fence_is(nodes, j, i - 1);
    }
}

proof fn lemma_no_last_fence(nodes: Seq<SyntaxNode>, i: int)
    requires
        i < nodes.len(),
        forall|k: int| 0 <= k <= i ==> (#[trigger] nodes[k]).kind != NodeKind::FencedCodeBlock,
    ensures
        last_fence(nodes, i) == -1,
    decreases i + 1,
{
    if i >= 0 {
        assert(nodes[i].kind != NodeKind::FencedCodeBlock);
        lemma_no_last_fence(nodes, i - 1);
    }
}

/// Only the first delimiter under a fenced code block opens it.
pub proof fn law_first_delimiters_open(nodes: Seq<SyntaxNode>, k: int, i: int)
    requires
        0 <= i < nodes.len(),
        nodes[i].kind == NodeKind::FencedCodeBlockDelimiter,
        parent_kind_of(nodes, i) == Some(NodeKind::FencedCodeBlock),
    ensures
        last_fence(nodes, i - 1) < k < i && nodes[k].kind == NodeKind::FencedCodeBlockDelimiter
            && parent_kind_of(nodes, k) == Some(NodeKind::FencedCodeBlock) ==> !info_of(
            nodes,
            i,
        ).is_first_fence_delimiter,
        (forall|x: int|
            last_fence(nodes, i - 1) < x < i ==> (#[trigger] nodes[x]).kind
                != NodeKind::FencedCodeBlockDelimiter) ==> info_of(
            nodes,
            i,
        ).is_first_fence_delimiter,
{
    if last_fence(nodes, i - 1) < k < i && nodes[k].kind == NodeKind::FencedCodeBlockDelimiter
        && parent_kind_of(nodes, k) == Some(NodeKind::FencedCodeBlock) {
        assert(is_fence_delimiter(nodes, k));
    }
    if forall|x: int|
        last_fence(nodes, i - 1) < x < i ==> (#[trigger] nodes[x]).kind
            != NodeKind::FencedCodeBlockDelimiter {
        if delimiter_seen(nodes, i) {
            let x = choose|x: int|
                last_fence(nodes, i - 1) < x < i && #[trigger] is_fence_delimiter(nodes, x);
            assert(nodes[x].kind != NodeKind::FencedCodeBlockDelimiter);
        }
    }
}

/// A continuation of a line that holds a `>` has the markers of that text, where it stands;
/// one that holds only blanks is an indent; in indented code there is none.
pub proof fn law_continuation_lines(s: LineState, n: NodeInfo, bytes: Seq<u8>, i: int)
    requires
        n.kind == NodeKind::BlockContinuation,
        0 <= n.start_byte <= n.end_byte <= bytes.len(),
    ensures
        ({
            let a = n.start_byte as int;
            let b = n.end_byte as int;
            let code = n.parent_kind == Some(NodeKind::IndentedCodeBlock);
            let after = line_step(s, n, bytes);
            &&& code ==> after == s
            &&& !code && a <= i < b && bytes[i] == '>' as u8 ==> after.markers == s.markers
                + shifted(continuation_markers(bytes.subrange(a, b)), a) && after.pending
                == s.pending
            &&& !code && a < b && (forall|k: int| a <= k < b ==> #[trigger] bytes[k] != '>' as u8)
                && all_space(decode_utf8(bytes.subrange(a, b))) ==> after.markers
                == s.markers.push(
                MarkerView { kind: MarkerKindView::Indent, start: a, end: b },
            )
            &&& !code && (forall|k: int| a <= k < b ==> #[trigger] bytes[k] != '>' as u8)
                && !all_space(decode_utf8(bytes.subrange(a, b))) ==> after == s
        }),
{
    assert('>' as u8 == 0x3e);
    let a = n.start_byte as int;
    let b = n.end_byte as int;
    let text = bytes.subrange(a, b);
    lemma_find_gt(text, 0);
    if a <= i < b && bytes[i] == 0x3e {
        assert(text[i - a] == 0x3e);
    }
    if forall|k: int| a <= k < b ==> #[trigger] bytes[k] != 0x3e {
        if has_gt(text) {
            let p = find_byte(text, 0x3e, 0);
            assert(bytes[a + p] == text[p]);
        }
    }
}

proof fn lemma_find_gt(text: Seq<u8>, i: int)
    requires
        0 <= i <= text.len(),
    ensures
        ({
            let p = find_byte(text, 0x3e, i);
            &&& i <= p <= text.len()
            &&& p < text.len() ==> text[p] == 0x3e
            &&& forall|k: int| i <= k < p ==> #[trigger] text[k] != 0x3e
        }),
    decreases text.len() - i,
{
    if i < text.len() && text[i] != 0x3e {
        lemma_find_gt(text, i + 1);
    }
}

/// In a prefix a quote or list marker comes in front of those before it: the innermost is
/// first. A node of another kind changes nothing.
pub proof fn law_prefixes_nest(p: Prefix, content: Seq<u8>, n: SyntaxNode)
    requires
        0 <= n.start < n.end <= content.len(),
        content[n.start as int] != 0x20 && content[n.start as int] != 0x09,
    ensures
        ({
            let after = prefix_with(p, content, n);
            let item = n.kind == NodeKind::ListMarkerMinus || n.kind == NodeKind::ListMarkerPlus
                || n.kind == NodeKind::ListMarkerStar || n.kind == NodeKind::ListMarkerDot || n.kind
                == NodeKind::ListMarkerParenthesis;
            let quote = n.kind == NodeKind::BlockQuoteMarker && content[n.start as int]
                == '>' as u8;
            &&& item || quote ==> {
                &&& after.markers.len() == p.markers.len() + 1
                &&& after.markers.drop_first() == p.markers
                &&& after.markers[0].start == n.start
                &&& after.last_end == after.markers[0].end
                &&& after.seen
            }
            &&& item ==> after.markers[0].kind is ListItem && after.markers[0].end == n.end
            &&& quote ==> after.markers[0].kind is BlockQuote
            &&& !item && n.kind != NodeKind::BlockQuoteMarker ==> after == p
        }),
{
    assert('>' as u8 == 0x3e);
    let text = content.subrange(n.start as int, n.end as int);
    assert(text[0] == content[n.start as int]);
    assert(blanks_then(text, 0));
    lemma_lead(text, 0);
    let after = prefix_with(p, content, n);
    if opens_container(n.kind) && after.markers.len() == p.markers.len() + 1 {
        assert(after.markers.drop_first() =~= p.markers);
    }
}

/// The blanks behind the last marker of a prefix are an indent inside it.
pub proof fn law_blanks_behind_a_prefix(content: Seq<u8>, nodes: Seq<SyntaxNode>)
    ensures
        ({
            let p = prefix_upto(content, nodes, nodes.len() as int);
            let n = content.len() as int;
            let blank = 0 < p.last_end < n && all_space(
                decode_utf8(content.subrange(p.last_end, n)),
            );
            &&& blank ==> prefix_markers(content, nodes) == seq![
                MarkerView { kind: MarkerKindView::Indent, start: p.last_end, end: n },
            ] + p.markers
            &&& !blank ==> prefix_markers(content, nodes) == p.markers
            &&& nodes.len() == 0 ==> prefix_markers(content, nodes).len() == 0
        }),
{
}

/// What stands for the markers of a line: quotes, indents, list items and checkboxes add
/// nothing, and any other marker adds what stands for it, the outermost first.
pub proof fn law_what_stands_for_markers(m: MarkerView, rest: Seq<MarkerView>)
    ensures
        substitutions(seq![]).len() == 0,
        m.kind is Indent || m.kind is BlockQuote || m.kind is ListItem || m.kind is Checkbox
            ==> substitutions(seq![m] + rest) == substitutions(rest),
        m.kind is Heading || m.kind is CodeBlockFence || m.kind is ThematicBreak ==> substitutions(
            seq![m] + rest,
        ) == substitutions(rest) + m.kind.substitution(),
{
    let all = seq![m] + rest;
    assert(all[0] == m);
    assert(all.drop_first() =~= rest);
    assert(substitutions(rest) + Seq::<char>::empty() =~= substitutions(rest));
}

/// Headings and breaks are not silent; every other marker is.
pub proof fn law_silent_markers(k: MarkerKindView)
    ensures
        is_silent(k) <==> !(k is Heading) && !(k is ThematicBreak),
{
}

/// The prefix of a line ends where the last of its quotes and indents does, and where the
/// line starts if it has none.
pub proof fn law_where_prefixes_end(ms: Seq<MarkerView>, m: MarkerView, start: int)
    ensures
        prefix_end(seq![], start) == start,
        m.kind is Indent || m.kind is BlockQuote ==> prefix_end(seq![m], start) == m.end,
        !(m.kind is Indent) && !(m.kind is BlockQuote) ==> prefix_end(ms.push(m), start)
            == prefix_end(ms, start),
        m.kind is Indent || m.kind is BlockQuote ==> m.end <= prefix_end(ms.push(m), start),
{
    let all = ms.push(m);
    assert(all.drop_last() =~= ms);
    assert(all.last() == m);
    assert(seq![m].drop_last() =~= seq![]);
    assert(seq![m].last() == m);
    assert(of_class(seq![m].drop_last(), MarkerClass::Prefix) =~= seq![]);
    if m.kind is Indent || m.kind is BlockQuote {
        let s = of_class(ms, MarkerClass::Prefix);
        assert(of_class(all, MarkerClass::Prefix) == s.push(m));
        assert(s.push(m).drop_last() =~= s);
        assert(s.push(m).last() == m);
        assert(of_class(seq![m], MarkerClass::Prefix) =~= seq![m]);
    }
}

} // verus!
