//! Inline styles: the styled regions (bold, italic, code, links, images) of a
//! document's inline trees, and those that references and URLs become.
use crate::marker::{copy_text, text_if_any};
use crate::parser::MarkdownTree;
use crate::refs::{
    context_view, GitHubContext, MatchView, NakedUrl, NakedUrlView, RawGitHubMatch, RefView,
};
use crate::rope::{rope_bytes, rope_slice, rope_text};
use crate::syntax::{
    children, children_of, depths_of, end_of_subtree, is_walk, lemma_children,
    lemma_cut_is_boundary, lemma_depth_bound, lists, node_fits, subtree_end, tree_fits, NodeKind,
    SyntaxNode,
};
use crate::text::{chars_of, str_eq};
use crate::validation::{known_valid, GitHubValidationCache, StateView};
use std::ops::Range;
use vstd::prelude::*;
use vstd::string::*;
use vstd::utf8::*;

verus! {

/// Style attributes for inline text.
#[derive(Debug, Clone, Copy, PartialEq, Eq, Structural)]
pub struct TextStyle {
    pub bold: bool,
    pub italic: bool,
    pub code: bool,
    pub strikethrough: bool,
    pub heading_level: u8,
}

/// Plain text.
pub open spec fn plain_style() -> TextStyle {
    TextStyle { bold: false, italic: false, code: false, strikethrough: false, heading_level: 0 }
}

/// Bold text.
pub open spec fn bold_style() -> TextStyle {
    TextStyle { bold: true, ..plain_style() }
}

/// Italic text.
pub open spec fn italic_style() -> TextStyle {
    TextStyle { italic: true, ..plain_style() }
}

/// Code.
pub open spec fn code_style() -> TextStyle {
    TextStyle { code: true, ..plain_style() }
}

/// Struck-through text.
pub open spec fn strike_style() -> TextStyle {
    TextStyle { strikethrough: true, ..plain_style() }
}

/// Two styles at once: what either of them has, and the larger heading level.
pub open spec fn merged(a: TextStyle, b: TextStyle) -> TextStyle {
    TextStyle {
        bold: a.bold || b.bold,
        italic: a.italic || b.italic,
        code: a.code || b.code,
        strikethrough: a.strikethrough || b.strikethrough,
        heading_level: if a.heading_level >= b.heading_level {
            a.heading_level
        } else {
            b.heading_level
        },
    }
}

impl Default for TextStyle {
    fn default() -> (r: Self)
        ensures
            r == plain_style(),
    {
        TextStyle {
            bold: false,
            italic: false,
            code: false,
            strikethrough: false,
            heading_level: 0,
        }
    }
}

impl TextStyle {
    /// Bold text.
    pub fn bold() -> (r: Self)
        ensures
            r == bold_style(),
    {
        TextStyle { bold: true, ..Self::default() }
    }

    /// Italic text.
    pub fn italic() -> (r: Self)
        ensures
            r == italic_style(),
    {
        TextStyle { italic: true, ..Self::default() }
    }

    /// Code.
    pub fn code() -> (r: Self)
        ensures
            r == code_style(),
    {
        TextStyle { code: true, ..Self::default() }
    }

    /// Struck-through text.
    pub fn strikethrough() -> (r: Self)
        ensures
            r == strike_style(),
    {
        TextStyle { strikethrough: true, ..Self::default() }
    }

    /// A heading, which is bold.
    pub fn heading(level: u8) -> (r: Self)
        ensures
            r == (TextStyle { heading_level: level, bold: true, ..plain_style() }),
    {
        TextStyle { heading_level: level, bold: true, ..Self::default() }
    }

    /// Two styles at once.
    pub fn merge(&self, other: &TextStyle) -> (r: Self)
        ensures
            r == merged(*self, *other),
    {
        TextStyle {
            bold: self.bold || other.bold,
            italic: self.italic || other.italic,
            code: self.code || other.code,
            strikethrough: self.strikethrough || other.strikethrough,
            heading_level: if self.heading_level >= other.heading_level {
                self.heading_level
            } else {
                other.heading_level
            },
        }
    }
}

/// Styles merge in any order and grouping, with themselves to themselves, and with
/// plain text to themselves.
pub proof fn law_merge_is_a_join(a: TextStyle, b: TextStyle, c: TextStyle)
    ensures
        merged(a, b) == merged(b, a),
        merged(merged(a, b), c) == merged(a, merged(b, c)),
        merged(a, a) == a,
        merged(a, plain_style()) == a,
{
}

/// A styled region of inline text with its delimiters.
#[derive(Debug, PartialEq)]
pub struct StyledRegion {
    /// The full range including delimiters (e.g., `**bold**` → 0..8)
    pub full_range: Range<usize>,
    /// The content range excluding delimiters (e.g., `**bold**` → 2..6)
    pub content_range: Range<usize>,
    pub style: TextStyle,
    pub link_url: Option<String>,
    pub is_image: bool,
    /// If Some, this is a checkbox. The bool indicates checked state.
    pub checkbox: Option<bool>,
    /// If Some, display this text instead of the buffer content.
    /// Used for GitHub URL shortening (e.g., show "owner/repo#123" instead of full URL).
    /// When set, the region is "atomic" - cursor/selection treat it as a single unit.
    pub display_text: Option<String>,
}

/// What a [`StyledRegion`] says, with ranges as (start, end).
pub struct RegionView {
    pub full: (int, int),
    pub content: (int, int),
    pub style: TextStyle,
    pub link_url: Option<Seq<char>>,
    pub is_image: bool,
    pub checkbox: Option<bool>,
    pub display_text: Option<Seq<char>>,
}

impl View for StyledRegion {
    type V = RegionView;

    open spec fn view(&self) -> RegionView {
        RegionView {
            full: (self.full_range.start as int, self.full_range.end as int),
            content: (self.content_range.start as int, self.content_range.end as int),
            style: self.style,
            link_url: text_if_any(self.link_url),
            is_image: self.is_image,
            checkbox: self.checkbox,
            display_text: text_if_any(self.display_text),
        }
    }
}

/// What some regions say.
pub open spec fn regions_view(rs: Seq<StyledRegion>) -> Seq<RegionView> {
    rs.map_values(|r: StyledRegion| r@)
}

/// A region of plain text over a range.
pub open spec fn plain_region(full: (int, int)) -> RegionView {
    RegionView {
        full,
        content: full,
        style: plain_style(),
        link_url: None,
        is_image: false,
        checkbox: None,
        display_text: None,
    }
}

impl Default for StyledRegion {
    fn default() -> (r: Self)
        ensures
            r@ == plain_region((0, 0)),
    {
        StyledRegion {
            full_range: 0..0,
            content_range: 0..0,
            style: TextStyle::default(),
            link_url: None,
            is_image: false,
            checkbox: None,
            display_text: None,
        }
    }
}

impl Clone for StyledRegion {
    fn clone(&self) -> (r: Self)
        ensures
            r@ == self@,
    {
        StyledRegion {
            full_range: self.full_range.start..self.full_range.end,
            content_range: self.content_range.start..self.content_range.end,
            style: self.style,
            link_url: copy_text(&self.link_url),
            is_image: self.is_image,
            checkbox: self.checkbox,
            display_text: copy_text(&self.display_text),
        }
    }
}

pub(crate) fn push_region(rs: &mut Vec<StyledRegion>, r: StyledRegion)
    ensures
        regions_view(final(rs)@) == regions_view(old(rs)@).push(r@),
{
    let ghost before = rs@;
    rs.push(r);
    assert(regions_view(rs@) =~= regions_view(before).push(r@));
}

// ---------------------------------------------------------------------------
// References and URLs as regions
// ---------------------------------------------------------------------------

/// The regions of the matches that are known to exist: links to their URL.
pub open spec fn ref_regions(ms: Seq<MatchView>, cache: Map<RefView, StateView>) -> Seq<RegionView>
    decreases ms.len(),
{
    if ms.len() == 0 {
        seq![]
    } else {
        let rest = ref_regions(ms.drop_last(), cache);
        let m = ms.last();
        if known_valid(cache, m.reference) {
            rest.push(
                RegionView {
                    link_url: Some(m.reference.url()),
                    ..plain_region((m.start, m.end))
                },
            )
        } else {
            rest
        }
    }
}

/// Convert validated GitHub references into styled regions.
///
/// Only references that `cache` knows to be valid become links.
pub fn github_refs_to_styled_regions(
    matches: &[RawGitHubMatch],
    cache: &GitHubValidationCache,
) -> (r: Vec<StyledRegion>)
    ensures
        regions_view(r@) == ref_regions(
            matches@.map_values(|m: RawGitHubMatch| m@),
            cache@,
        ),
{
    let ghost ms = matches@.map_values(|m: RawGitHubMatch| m@);
    let mut out: Vec<StyledRegion> = Vec::new();
    let mut i: usize = 0;
    assert(ms.subrange(0, 0) =~= Seq::<MatchView>::empty());
    assert(regions_view(out@) =~= Seq::<RegionView>::empty());
    while i < matches.len()
        invariant
            i <= matches@.len(),
            ms == matches@.map_values(|m: RawGitHubMatch| m@),
            regions_view(out@) == ref_regions(ms.subrange(0, i as int), cache@),
        decreases matches@.len() - i,
    {
        let m = &matches[i];
        proof {
            let upto = ms.subrange(0, i + 1);
            assert(upto.drop_last() =~= ms.subrange(0, i as int));
            assert(upto.last() == m@);
        }
        if cache.is_valid(&m.reference) {
            push_region(
                &mut out,
                StyledRegion {
                    full_range: m.byte_range.start..m.byte_range.end,
                    content_range: m.byte_range.start..m.byte_range.end,
                    link_url: Some(m.reference.url()),
                    ..StyledRegion::default()
                },
            );
        }
        i += 1;
    }
    assert(ms.subrange(0, i as int) =~= ms);
    out
}

/// The text shown in place of a URL: the short form of a reference that is known to
/// exist.
pub open spec fn url_display(
    r: Option<RefView>,
    cache: Map<RefView, StateView>,
    context: Option<(Seq<char>, Seq<char>)>,
) -> Option<Seq<char>> {
    match r {
        Some(r) => if known_valid(cache, r) {
            Some(r.short_display(context))
        } else {
            None
        },
        None => None,
    }
}

/// The region of a naked URL: a link to itself.
pub open spec fn url_region(
    u: NakedUrlView,
    cache: Map<RefView, StateView>,
    context: Option<(Seq<char>, Seq<char>)>,
) -> RegionView {
    RegionView {
        link_url: Some(u.url),
        display_text: url_display(u.github_ref, cache, context),
        ..plain_region((u.start, u.end))
    }
}

/// Convert naked URLs into styled regions (clickable links).
/// For GitHub URLs with validated refs, sets display_text for shortening.
/// If `context` is provided, refs from the same repo omit the `owner/repo` prefix.
pub fn naked_urls_to_styled_regions(
    urls: &[NakedUrl],
    cache: &GitHubValidationCache,
    context: Option<&GitHubContext>,
) -> (r: Vec<StyledRegion>)
    requires
        forall|i: int|
            0 <= i < urls@.len() ==> ((#[trigger] urls@[i]).github_ref matches Some(g)
                ==> known_valid(cache@, g@) ==> g@.cuts()),
    ensures
        r@.len() == urls@.len(),
        forall|i: int|
            0 <= i < r@.len() ==> (#[trigger] r@[i])@ == url_region(
                urls@[i]@,
                cache@,
                context_view(context),
            ),
{
    let mut out: Vec<StyledRegion> = Vec::new();
    let mut i: usize = 0;
    while i < urls.len()
        invariant
            i <= urls@.len(),
            out@.len() == i,
            forall|i: int|
                0 <= i < urls@.len() ==> ((#[trigger] urls@[i]).github_ref matches Some(g)
                    ==> known_valid(cache@, g@) ==> g@.cuts()),
            forall|k: int|
                0 <= k < i ==> (#[trigger] out@[k])@ == url_region(
                    urls@[k]@,
                    cache@,
                    context_view(context),
                ),
        decreases urls@.len() - i,
    {
        let u = &urls[i];
        let display_text = match &u.github_ref {
            Some(g) => if cache.is_valid(g) {
                Some(g.short_display(context))
            } else {
                None
            },
            None => None,
        };
        out.push(
            StyledRegion {
                full_range: u.byte_range.start..u.byte_range.end,
                content_range: u.byte_range.start..u.byte_range.end,
                link_url: Some(u.url.clone()),
                display_text,
                ..StyledRegion::default()
            },
        );
        i += 1;
    }
    out
}

// ---------------------------------------------------------------------------
// Emphasis
// ---------------------------------------------------------------------------

/// The delimiters among the first `k` children of node `i`, and those of children of
/// the node's own kind, in order, as (start, end). Nested ones count because `~~text~~`
/// parses as nested `~(~text~)~`.
pub open spec fn delimiters(nodes: Seq<SyntaxNode>, i: int, k: int) -> Seq<(int, int)>
    decreases nodes.len() - i, k,
    when 0 <= i < nodes.len() && k <= children_of(nodes, i).len()
{
    proof {
        lemma_children(nodes, i);
    }
    if k <= 0 {
        seq![]
    } else {
        let c = children_of(nodes, i)[k - 1];
        let before = delimiters(nodes, i, k - 1);
        let own = if nodes[c].kind.spec_is_delimiter() {
            seq![(nodes[c].start as int, nodes[c].end as int)]
        } else {
            seq![]
        };
        let nested = if nodes[c].kind == nodes[i].kind {
            delimiters(nodes, c, children_of(nodes, c).len() as int)
        } else {
            seq![]
        };
        before + own + nested
    }
}

/// `start` after the delimiters that follow it one after the other.
pub open spec fn after_openers(ds: Seq<(int, int)>, start: int) -> int
    decreases ds.len(),
{
    if ds.len() == 0 {
        start
    } else {
        let s = after_openers(ds.drop_last(), start);
        if ds.last().0 == s {
            ds.last().1
        } else {
            s
        }
    }
}

/// `end` before the delimiters that precede it one after the other.
pub open spec fn before_closers(ds: Seq<(int, int)>, end: int) -> int
    decreases ds.len(),
{
    if ds.len() == 0 {
        end
    } else {
        let e = before_closers(ds.drop_first(), end);
        if ds[0].1 == e {
            ds[0].0
        } else {
            e
        }
    }
}

/// The region of an emphasis node: its content is what is left between the delimiters.
pub open spec fn emphasis_region(nodes: Seq<SyntaxNode>, i: int, style: TextStyle) -> RegionView {
    let ds = delimiters(nodes, i, children_of(nodes, i).len() as int);
    let full = (nodes[i].start as int, nodes[i].end as int);
    RegionView {
        content: (after_openers(ds, full.0), before_closers(ds, full.1)),
        style,
        ..plain_region(full)
    }
}

spec fn pairs_view(v: Seq<(usize, usize)>) -> Seq<(int, int)> {
    v.map_values(|p: (usize, usize)| (p.0 as int, p.1 as int))
}

/// Collects the delimiters of a node.
fn collect_delimiters(nodes: &Vec<SyntaxNode>, i: usize, out: &mut Vec<(usize, usize)>)
    requires
        i < nodes@.len(),
        is_walk(depths_of(nodes@)),
    ensures
        pairs_view(final(out)@) == pairs_view(old(out)@) + delimiters(
            nodes@,
            i as int,
            children_of(nodes@, i as int).len() as int,
        ),
    decreases nodes@.len() - i,
{
    let n = nodes.len();
    proof {
        lemma_depth_bound(nodes@, i as int);
        lemma_children(nodes@, i as int);
    }
    let kids = children(nodes, i);
    let ghost all = children_of(nodes@, i as int);
    let ghost before = pairs_view(out@);
    let mut k: usize = 0;
    assert(before + delimiters(nodes@, i as int, 0) =~= before);
    while k < kids.len()
        invariant
            n == nodes@.len(),
            i < n,
            k <= kids@.len(),
            is_walk(depths_of(nodes@)),
            all == children_of(nodes@, i as int),
            lists(kids@, all),
            forall|x: int| 0 <= x < kids@.len() ==> i < (#[trigger] kids@[x]) < n,
            pairs_view(out@) == before + delimiters(nodes@, i as int, k as int),
        decreases kids@.len() - k,
    {
        let c = kids[k];
        let node = nodes[c];
        let ghost start = pairs_view(out@);
        if node.kind.is_delimiter() {
            out.push((node.start, node.end));
            assert(pairs_view(out@) =~= start.push((node.start as int, node.end as int)));
        }
        if node.kind == nodes[i].kind {
            collect_delimiters(nodes, c, out);
        }
        assert(pairs_view(out@) =~= before + delimiters(nodes@, i as int, k + 1));
        k += 1;
    }
}

/// The region of an emphasis node.
fn extract_emphasis_region(nodes: &Vec<SyntaxNode>, i: usize, style: TextStyle) -> (r: StyledRegion)
    requires
        i < nodes@.len(),
        is_walk(depths_of(nodes@)),
    ensures
        r@ == emphasis_region(nodes@, i as int, style),
{
    // The nodes of a tree start in order, so the delimiters come sorted.
    let mut ds: Vec<(usize, usize)> = Vec::new();
    collect_delimiters(nodes, i, &mut ds);
    let ghost all = pairs_view(ds@);
    proof {
        let want = delimiters(nodes@, i as int, children_of(nodes@, i as int).len() as int);
        assert(pairs_view(Seq::<(usize, usize)>::empty()) + want =~= want);
    }
    let full_start = nodes[i].start;
    let full_end = nodes[i].end;
    // Opening delimiters from start - keep consuming adjacent delimiters
    let mut content_start = full_start;
    let mut k: usize = 0;
    assert(all.subrange(0, 0) =~= Seq::<(int, int)>::empty());
    while k < ds.len()
        invariant
            k <= ds@.len(),
            all == pairs_view(ds@),
            content_start == after_openers(all.subrange(0, k as int), full_start as int),
        decreases ds@.len() - k,
    {
        proof {
            let upto = all.subrange(0, k + 1);
            assert(upto.drop_last() =~= all.subrange(0, k as int));
            assert(upto.last() == (ds@[k as int].0 as int, ds@[k as int].1 as int));
        }
        if ds[k].0 == content_start {
            content_start = ds[k].1;
        }
        k += 1;
    }
    assert(all.subrange(0, k as int) =~= all);
    // Closing delimiters from end - keep consuming adjacent delimiters
    let mut content_end = full_end;
    let mut m: usize = ds.len();
    assert(all.subrange(m as int, all.len() as int) =~= Seq::<(int, int)>::empty());
    while m > 0
        invariant
            m <= ds@.len(),
            all == pairs_view(ds@),
            content_end == before_closers(
                all.subrange(m as int, all.len() as int),
                full_end as int,
            ),
        decreases m,
    {
        proof {
            let from = all.subrange(m - 1, all.len() as int);
            assert(from.drop_first() =~= all.subrange(m as int, all.len() as int));
            assert(from[0] == (ds@[m - 1].0 as int, ds@[m - 1].1 as int));
        }
        if ds[m - 1].1 == content_end {
            content_end = ds[m - 1].0;
        }
        m -= 1;
    }
    assert(all.subrange(0, all.len() as int) =~= all);
    StyledRegion {
        full_range: full_start..full_end,
        content_range: content_start..content_end,
        style,
        ..StyledRegion::default()
    }
}

// ---------------------------------------------------------------------------
// Code spans
// ---------------------------------------------------------------------------

/// The content of a code span after its children `kids[..k]`: a delimiter at the start
/// of the span moves the start, another one at its end moves the end.
pub open spec fn code_content(nodes: Seq<SyntaxNode>, i: int, kids: Seq<int>, k: int) -> (int, int)
    decreases k,
{
    if k <= 0 {
        (nodes[i].start as int, nodes[i].end as int)
    } else {
        let p = code_content(nodes, i, kids, k - 1);
        let c = nodes[kids[k - 1]];
        if c.kind != NodeKind::CodeSpanDelimiter {
            p
        } else if c.start == nodes[i].start {
            (c.end as int, p.1)
        } else if c.end == nodes[i].end {
            (p.0, c.start as int)
        } else {
            p
        }
    }
}

/// The region of a code span.
pub open spec fn code_region(nodes: Seq<SyntaxNode>, i: int) -> RegionView {
    let kids = children_of(nodes, i);
    RegionView {
        content: code_content(nodes, i, kids, kids.len() as int),
        style: code_style(),
        ..plain_region((nodes[i].start as int, nodes[i].end as int))
    }
}

/// The region of a code span.
fn extract_code_span_region(nodes: &Vec<SyntaxNode>, i: usize) -> (r: StyledRegion)
    requires
        i < nodes@.len(),
        nodes@[i as int].depth < usize::MAX,
    ensures
        r@ == code_region(nodes@, i as int),
{
    let full_start = nodes[i].start;
    let full_end = nodes[i].end;
    let mut content_start = full_start;
    let mut content_end = full_end;
    let kids = children(nodes, i);
    let mut k: usize = 0;
    while k < kids.len()
        invariant
            i < nodes@.len(),
            full_start == nodes@[i as int].start,
            full_end == nodes@[i as int].end,
            k <= kids@.len(),
            lists(kids@, children_of(nodes@, i as int)),
            forall|x: int| 0 <= x < kids@.len() ==> (#[trigger] kids@[x]) < nodes@.len(),
            (content_start as int, content_end as int) == code_content(
                nodes@,
                i as int,
                children_of(nodes@, i as int),
                k as int,
            ),
        decreases kids@.len() - k,
    {
        let c = nodes[kids[k]];
        if c.kind == NodeKind::CodeSpanDelimiter {
            if c.start == full_start {
                content_start = c.end;
            } else if c.end == full_end {
                content_end = c.start;
            }
        }
        k += 1;
    }
    StyledRegion {
        full_range: full_start..full_end,
        content_range: content_start..content_end,
        style: TextStyle::code(),
        ..StyledRegion::default()
    }
}

// ---------------------------------------------------------------------------
// Links and images
// ---------------------------------------------------------------------------

/// A link or an image on its way: the range of its text and its destination.
pub struct LinkParts {
    pub content: (int, int),
    pub url: Option<Seq<char>>,
}

/// A link or an image after its children `kids[..k]`: the last text child is the text,
/// the last destination child the destination.
pub open spec fn link_parts(
    nodes: Seq<SyntaxNode>,
    bytes: Seq<u8>,
    i: int,
    text_kind: NodeKind,
    k: int,
) -> LinkParts
    decreases k,
{
    if k <= 0 {
        LinkParts { content: (nodes[i].start as int, nodes[i].end as int), url: None }
    } else {
        let p = link_parts(nodes, bytes, i, text_kind, k - 1);
        let c = nodes[children_of(nodes, i)[k - 1]];
        if c.kind == text_kind {
            LinkParts { content: (c.start as int, c.end as int), ..p }
        } else if c.kind == NodeKind::LinkDestination {
            LinkParts { url: Some(chars_of(bytes, c.start as int, c.end as int)), ..p }
        } else {
            p
        }
    }
}

/// The content of a link without a destination after its children `..k`: what is
/// between its brackets.
pub open spec fn bracketed(
    nodes: Seq<SyntaxNode>,
    i: int,
    content: (int, int),
    k: int,
) -> (int, int)
    decreases k,
{
    if k <= 0 {
        content
    } else {
        let p = bracketed(nodes, i, content, k - 1);
        let c = nodes[children_of(nodes, i)[k - 1]];
        if c.kind == NodeKind::OpenBracket {
            (c.end as int, p.1)
        } else if c.kind == NodeKind::CloseBracket {
            (p.0, c.start as int)
        } else {
            p
        }
    }
}

/// The text of a task list checkbox: `[ ]`, `[x]` or `[X]`.
pub open spec fn is_checkbox_text(text: Seq<char>) -> bool {
    text == "[ ]"@ || text == "[x]"@ || text == "[X]"@
}

/// The region of a link node. A shortcut link that reads like a checkbox is none.
pub open spec fn link_region(nodes: Seq<SyntaxNode>, bytes: Seq<u8>, i: int) -> Option<RegionView> {
    let n = children_of(nodes, i).len() as int;
    let full = (nodes[i].start as int, nodes[i].end as int);
    let p = link_parts(nodes, bytes, i, NodeKind::LinkText, n);
    if nodes[i].kind == NodeKind::ShortcutLink && is_checkbox_text(
        chars_of(bytes, full.0, full.1),
    ) {
        None
    } else {
        Some(
            RegionView {
                content: if p.url is None {
                    bracketed(nodes, i, p.content, n)
                } else {
                    p.content
                },
                link_url: p.url,
                ..plain_region(full)
            },
        )
    }
}

/// The region of an image node, where it has a destination.
pub open spec fn image_region(nodes: Seq<SyntaxNode>, bytes: Seq<u8>, i: int) -> Option<
    RegionView,
> {
    let n = children_of(nodes, i).len() as int;
    let p = link_parts(nodes, bytes, i, NodeKind::ImageDescription, n);
    if p.url is None {
        None
    } else {
        Some(
            RegionView {
                content: p.content,
                link_url: p.url,
                is_image: true,
                ..plain_region((nodes[i].start as int, nodes[i].end as int))
            },
        )
    }
}

/// The text of a node.
fn text_of_node(node: &SyntaxNode, rope: &ropey::Rope) -> (r: String)
    requires
        node_fits(*node, rope_bytes(*rope)),
    ensures
        r@ == chars_of(rope_bytes(*rope), node.start as int, node.end as int),
{
    proof {
        encode_utf8_valid_utf8(rope_text(*rope));
        lemma_cut_is_boundary(rope_bytes(*rope), node.start as int);
        lemma_cut_is_boundary(rope_bytes(*rope), node.end as int);
    }
    let s = rope_slice(rope, node.start, node.end);
    proof {
        encode_utf8_decode_utf8(s@);
    }
    s
}

/// The text and the destination of a link or an image.
fn read_link(nodes: &Vec<SyntaxNode>, i: usize, text_kind: NodeKind, rope: &ropey::Rope) -> (r: (
    Range<usize>,
    Option<String>,
))
    requires
        i < nodes@.len(),
        nodes@[i as int].depth < usize::MAX,
        forall|x: int|
            0 <= x < nodes@.len() ==> node_fits(#[trigger] nodes@[x], rope_bytes(*rope)),
    ensures
        ({
            let p = link_parts(
                nodes@,
                rope_bytes(*rope),
                i as int,
                text_kind,
                children_of(nodes@, i as int).len() as int,
            );
            &&& p.content == (r.0.start as int, r.0.end as int)
            &&& p.url == text_if_any(r.1)
        }),
{
    let ghost bytes = rope_bytes(*rope);
    let mut start = nodes[i].start;
    let mut end = nodes[i].end;
    let mut url: Option<String> = None;
    let kids = children(nodes, i);
    let mut k: usize = 0;
    while k < kids.len()
        invariant
            i < nodes@.len(),
            bytes == rope_bytes(*rope),
            forall|x: int| 0 <= x < nodes@.len() ==> node_fits(#[trigger] nodes@[x], bytes),
            k <= kids@.len(),
            lists(kids@, children_of(nodes@, i as int)),
            forall|x: int| 0 <= x < kids@.len() ==> (#[trigger] kids@[x]) < nodes@.len(),
            ({
                let p = link_parts(nodes@, bytes, i as int, text_kind, k as int);
                &&& p.content == (start as int, end as int)
                &&& p.url == text_if_any(url)
            }),
        decreases kids@.len() - k,
    {
        let c = nodes[kids[k]];
        assert(node_fits(nodes@[kids@[k as int] as int], bytes));
        if c.kind == text_kind {
            start = c.start;
            end = c.end;
        } else if c.kind == NodeKind::LinkDestination {
            url = Some(text_of_node(&c, rope));
        }
        k += 1;
    }
    (start..end, url)
}

/// The region of a link node.
fn extract_link_region(nodes: &Vec<SyntaxNode>, i: usize, rope: &ropey::Rope) -> (r: Option<
    StyledRegion,
>)
    requires
        i < nodes@.len(),
        nodes@[i as int].depth < usize::MAX,
        forall|x: int|
            0 <= x < nodes@.len() ==> node_fits(#[trigger] nodes@[x], rope_bytes(*rope)),
    ensures
        region_if_any(r) == link_region(nodes@, rope_bytes(*rope), i as int),
{
    let node = nodes[i];
    // Checkbox patterns read as shortcut links where the parser does not see the task
    // list (e.g., when there's no content after the checkbox).
    if node.kind == NodeKind::ShortcutLink {
        let text = text_of_node(&node, rope);
        if str_eq(text.as_str(), "[ ]") || str_eq(text.as_str(), "[x]") || str_eq(
            text.as_str(),
            "[X]",
        ) {
            return None;
        }
    }
    let (content, url) = read_link(nodes, i, NodeKind::LinkText, rope);
    let mut start = content.start;
    let mut end = content.end;
    if url.is_none() {
        let kids = children(nodes, i);
        let mut k: usize = 0;
        while k < kids.len()
            invariant
                k <= kids@.len(),
                lists(kids@, children_of(nodes@, i as int)),
                forall|x: int| 0 <= x < kids@.len() ==> (#[trigger] kids@[x]) < nodes@.len(),
                (start as int, end as int) == bracketed(
                    nodes@,
                    i as int,
                    (content.start as int, content.end as int),
                    k as int,
                ),
            decreases kids@.len() - k,
        {
            let c = nodes[kids[k]];
            if c.kind == NodeKind::OpenBracket {
                start = c.end;
            } else if c.kind == NodeKind::CloseBracket {
                end = c.start;
            }
            k += 1;
        }
    }
    Some(
        StyledRegion {
            full_range: node.start..node.end,
            content_range: start..end,
            link_url: url,
            ..StyledRegion::default()
        },
    )
}

/// The region of an image node, where it has a destination.
fn extract_image_region(nodes: &Vec<SyntaxNode>, i: usize, rope: &ropey::Rope) -> (r: Option<
    StyledRegion,
>)
    requires
        i < nodes@.len(),
        nodes@[i as int].depth < usize::MAX,
        forall|x: int|
            0 <= x < nodes@.len() ==> node_fits(#[trigger] nodes@[x], rope_bytes(*rope)),
    ensures
        region_if_any(r) == image_region(nodes@, rope_bytes(*rope), i as int),
{
    let (content, url) = read_link(nodes, i, NodeKind::ImageDescription, rope);
    if url.is_none() {
        return None;
    }
    Some(
        StyledRegion {
            full_range: nodes[i].start..nodes[i].end,
            content_range: content,
            link_url: url,
            is_image: true,
            ..StyledRegion::default()
        },
    )
}

/// What an optional region says.
pub open spec fn region_if_any(r: Option<StyledRegion>) -> Option<RegionView> {
    match r {
        Some(r) => Some(r@),
        None => None,
    }
}

// ---------------------------------------------------------------------------
// Trees
// ---------------------------------------------------------------------------

/// Some node above `i` is a strikethrough.
pub open spec fn in_strike(nodes: Seq<SyntaxNode>, i: int) -> bool {
    exists|j: int| #[trigger] strikes(nodes, j, i)
}

/// Node `j` is a strikethrough above node `i`.
pub open spec fn strikes(nodes: Seq<SyntaxNode>, j: int, i: int) -> bool {
    0 <= j < i && nodes[j].kind == NodeKind::Strikethrough && i < subtree_end(
        depths_of(nodes),
        j,
    )
}

/// The region that node `i` is, if it is one. A strikethrough inside another one is
/// none.
pub open spec fn region_of(nodes: Seq<SyntaxNode>, bytes: Seq<u8>, i: int) -> Option<RegionView> {
    match nodes[i].kind {
        NodeKind::Emphasis => Some(emphasis_region(nodes, i, italic_style())),
        NodeKind::StrongEmphasis => Some(emphasis_region(nodes, i, bold_style())),
        NodeKind::CodeSpan => Some(code_region(nodes, i)),
        NodeKind::Strikethrough => if in_strike(nodes, i) {
            None
        } else {
            Some(emphasis_region(nodes, i, strike_style()))
        },
        NodeKind::InlineLink => link_region(nodes, bytes, i),
        NodeKind::FullReferenceLink => link_region(nodes, bytes, i),
        NodeKind::CollapsedReferenceLink => link_region(nodes, bytes, i),
        NodeKind::ShortcutLink => link_region(nodes, bytes, i),
        NodeKind::Image => image_region(nodes, bytes, i),
        _ => None,
    }
}

/// The regions of the first `k` nodes of a tree.
pub open spec fn tree_regions(nodes: Seq<SyntaxNode>, bytes: Seq<u8>, k: int) -> Seq<RegionView>
    decreases k,
{
    if k <= 0 {
        seq![]
    } else {
        let rest = tree_regions(nodes, bytes, k - 1);
        match region_of(nodes, bytes, k - 1) {
            Some(r) => rest.push(r),
            None => rest,
        }
    }
}

/// The regions of the first `k` trees.
pub open spec fn trees_regions(trees: Seq<Seq<SyntaxNode>>, bytes: Seq<u8>, k: int) -> Seq<
    RegionView,
>
    decreases k,
{
    if k <= 0 {
        seq![]
    } else {
        trees_regions(trees, bytes, k - 1) + tree_regions(
            trees[k - 1],
            bytes,
            trees[k - 1].len() as int,
        )
    }
}

/// `sorted` with `x` put behind everything that starts no later than it.
pub open spec fn insert_region(sorted: Seq<RegionView>, x: RegionView) -> Seq<RegionView>
    decreases sorted.len(),
{
    if sorted.len() == 0 || sorted.last().full.0 <= x.full.0 {
        sorted.push(x)
    } else {
        insert_region(sorted.drop_last(), x).push(sorted.last())
    }
}

/// The regions in the order in which they start; those that start together keep their
/// order.
pub open spec fn sorted_regions(rs: Seq<RegionView>) -> Seq<RegionView>
    decreases rs.len(),
{
    if rs.len() == 0 {
        seq![]
    } else {
        insert_region(sorted_regions(rs.drop_last()), rs.last())
    }
}

/// The regions start in order.
pub open spec fn regions_in_order(rs: Seq<RegionView>) -> bool {
    forall|i: int, j: int|
        0 <= i <= j < rs.len() ==> (#[trigger] rs[i]).full.0 <= (#[trigger] rs[j]).full.0
}

/// Collect the styled regions of an inline tree.
fn collect_from_inline_tree(nodes: &Vec<SyntaxNode>, rope: &ropey::Rope) -> (r: Vec<StyledRegion>)
    requires
        tree_fits(nodes@, rope_bytes(*rope)),
    ensures
        regions_view(r@) == tree_regions(nodes@, rope_bytes(*rope), nodes@.len() as int),
{
    let ghost bytes = rope_bytes(*rope);
    let n = nodes.len();
    let mut out: Vec<StyledRegion> = Vec::new();
    // Where the subtree of the outermost strikethrough so far ends.
    let mut strike_end: usize = 0;
    let mut i: usize = 0;
    assert(regions_view(out@) =~= Seq::<RegionView>::empty());
    while i < n
        invariant
            n == nodes@.len(),
            i <= n,
            bytes == rope_bytes(*rope),
            is_walk(depths_of(nodes@)),
            forall|x: int| 0 <= x < nodes@.len() ==> node_fits(#[trigger] nodes@[x], bytes),
            regions_view(out@) == tree_regions(nodes@, bytes, i as int),
            i < strike_end ==> in_strike(nodes@, i as int),
            strike_end <= n,
            forall|k: int|
                i <= k < strike_end ==> #[trigger] in_strike(nodes@, k),
            forall|j: int|
                0 <= j < i && (#[trigger] nodes@[j]).kind == NodeKind::Strikethrough
                    ==> subtree_end(depths_of(nodes@), j) <= strike_end || subtree_end(
                    depths_of(nodes@),
                    j,
                ) <= i,
        decreases n - i,
    {
        let node = nodes[i];
        proof {
            lemma_depth_bound(nodes@, i as int);
            lemma_children(nodes@, i as int);
        }
        let struck = i < strike_end;
        assert(struck == in_strike(nodes@, i as int)) by {
            if in_strike(nodes@, i as int) {
                let j = choose|j: int| #[trigger] strikes(nodes@, j, i as int);
                assert(nodes@[j].kind == NodeKind::Strikethrough);
            }
        }
        match node.kind {
            NodeKind::Emphasis => {
                push_region(&mut out, extract_emphasis_region(nodes, i, TextStyle::italic()));
            },
            NodeKind::StrongEmphasis => {
                push_region(&mut out, extract_emphasis_region(nodes, i, TextStyle::bold()));
            },
            NodeKind::CodeSpan => {
                push_region(&mut out, extract_code_span_region(nodes, i));
            },
            NodeKind::Strikethrough => {
                if !struck {
                    push_region(
                        &mut out,
                        extract_emphasis_region(nodes, i, TextStyle::strikethrough()),
                    );
                }
            },
            NodeKind::InlineLink | NodeKind::FullReferenceLink | NodeKind::CollapsedReferenceLink
            | NodeKind::ShortcutLink => {
                if let Some(r) = extract_link_region(nodes, i, rope) {
                    push_region(&mut out, r);
                }
            },
            NodeKind::Image => {
                if let Some(r) = extract_image_region(nodes, i, rope) {
                    push_region(&mut out, r);
                }
            },
            _ => {},
        }
        let ghost old_end = strike_end;
        if node.kind == NodeKind::Strikethrough {
            let e = end_of_subtree(nodes, i);
            if e > strike_end {
                strike_end = e;
            }
        }
        proof {
            assert forall|k: int| i + 1 <= k < strike_end implies #[trigger] in_strike(
                nodes@,
                k,
            ) by {
                if k >= old_end {
                    assert(strikes(nodes@, i as int, k));
                }
            }
        }
        i += 1;
    }
    out
}

/// Puts a region behind those that start no later than it.
pub(crate) fn insert_sorted(rs: &mut Vec<StyledRegion>, x: StyledRegion)
    ensures
        regions_view(final(rs)@) == insert_region(regions_view(old(rs)@), x@),
{
    let ghost before = regions_view(rs@);
    let mut at = rs.len();
    assert(before.subrange(0, at as int) =~= before);
    assert(before.subrange(at as int, before.len() as int) =~= Seq::<RegionView>::empty());
    assert(insert_region(before, x@) + Seq::<RegionView>::empty() =~= insert_region(before, x@));
    while at > 0 && rs[at - 1].full_range.start > x.full_range.start
        invariant
            at <= rs@.len(),
            before == regions_view(rs@),
            rs@ == old(rs)@,
            insert_region(before, x@) == insert_region(before.subrange(0, at as int), x@)
                + before.subrange(at as int, before.len() as int),
        decreases at,
    {
        proof {
            let head = before.subrange(0, at as int);
            assert(head.last() == rs@[at - 1]@);
            assert(head.drop_last() =~= before.subrange(0, at - 1));
            let tail = before.subrange(at as int, before.len() as int);
            assert(insert_region(head, x@) + tail =~= insert_region(head.drop_last(), x@)
                + before.subrange(at - 1, before.len() as int));
        }
        at -= 1;
    }
    proof {
        let head = before.subrange(0, at as int);
        if at > 0 {
            assert(head.last() == rs@[at - 1]@);
        }
        assert(insert_region(head, x@) == head.push(x@));
    }
    rs.insert(at, x);
    assert(regions_view(rs@) =~= before.subrange(0, at as int).push(x@) + before.subrange(
        at as int,
        before.len() as int,
    ));
}

/// Extract all inline styles from a markdown tree.
/// Returns a flat Vec sorted by start byte position.
pub fn extract_all_inline_styles(tree: &MarkdownTree, rope: &ropey::Rope) -> (r: Vec<StyledRegion>)
    requires
        tree@.fits(rope_bytes(*rope)),
    ensures
        regions_view(r@) == sorted_regions(
            trees_regions(tree@.inline, rope_bytes(*rope), tree@.inline.len() as int),
        ),
        regions_in_order(regions_view(r@)),
{
    let ghost bytes = rope_bytes(*rope);
    let trees = tree.inline_trees();
    let mut out: Vec<StyledRegion> = Vec::new();
    let mut k: usize = 0;
    assert(regions_view(out@) =~= Seq::<RegionView>::empty());
    while k < trees.len()
        invariant
            bytes == rope_bytes(*rope),
            tree@.fits(bytes),
            trees@.map_values(|v: Vec<SyntaxNode>| v@) == tree@.inline,
            k <= trees@.len(),
            regions_view(out@) == sorted_regions(trees_regions(tree@.inline, bytes, k as int)),
        decreases trees@.len() - k,
    {
        assert(tree@.inline[k as int] == trees@[k as int]@);
        let found = collect_from_inline_tree(&trees[k], rope);
        let ghost base = trees_regions(tree@.inline, bytes, k as int);
        let ghost fresh = regions_view(found@);
        let mut j: usize = 0;
        assert(base + fresh.subrange(0, 0) =~= base);
        while j < found.len()
            invariant
                j <= found@.len(),
                fresh == regions_view(found@),
                regions_view(out@) == sorted_regions(base + fresh.subrange(0, j as int)),
            decreases found@.len() - j,
        {
            proof {
                let upto = base + fresh.subrange(0, j + 1);
                assert(upto.drop_last() =~= base + fresh.subrange(0, j as int));
                assert(upto.last() == found@[j as int]@);
            }
            insert_sorted(&mut out, found[j].clone());
            j += 1;
        }
        assert(fresh.subrange(0, j as int) =~= fresh);
        k += 1;
    }
    proof {
        law_sorted_regions_in_order(
            trees_regions(tree@.inline, bytes, tree@.inline.len() as int),
        );
    }
    out
}

/// All regions start at `b` or before it.
spec fn starts_upto(rs: Seq<RegionView>, b: int) -> bool {
    forall|i: int| 0 <= i < rs.len() ==> (#[trigger] rs[i]).full.0 <= b
}

proof fn lemma_insert_region_in_order(sorted: Seq<RegionView>, x: RegionView)
    requires
        regions_in_order(sorted),
    ensures
        regions_in_order(insert_region(sorted, x)),
        insert_region(sorted, x).len() == sorted.len() + 1,
        forall|b: int|
            x.full.0 <= b && starts_upto(sorted, b) ==> #[trigger] starts_upto(
                insert_region(sorted, x),
                b,
            ),
    decreases sorted.len(),
{
    if sorted.len() > 0 && sorted.last().full.0 > x.full.0 {
        let rest = sorted.drop_last();
        assert(regions_in_order(rest)) by {
            assert forall|i: int, j: int| 0 <= i <= j < rest.len() implies (
            #[trigger] rest[i]).full.0 <= (#[trigger] rest[j]).full.0 by {
                assert(sorted[i].full.0 <= sorted[j].full.0);
            }
        }
        lemma_insert_region_in_order(rest, x);
        let mid = insert_region(rest, x);
        let top = sorted.last();
        assert(starts_upto(rest, top.full.0)) by {
            assert forall|i: int| 0 <= i < rest.len() implies (
            #[trigger] rest[i]).full.0 <= top.full.0 by {
                assert(sorted[i].full.0 <= sorted[sorted.len() - 1].full.0);
            }
        }
        assert(starts_upto(mid, top.full.0));
        assert forall|b: int| x.full.0 <= b && starts_upto(sorted, b) implies #[trigger] starts_upto(
            insert_region(sorted, x),
            b,
        ) by {
            assert(starts_upto(rest, b)) by {
                assert forall|i: int| 0 <= i < rest.len() implies (#[trigger] rest[i]).full.0
                    <= b by {
                    assert(sorted[i].full.0 <= b);
                }
            }
            assert(starts_upto(mid, b));
            assert(sorted[sorted.len() - 1].full.0 <= b);
        }
    } else {
        assert forall|i: int, j: int| 0 <= i <= j < sorted.push(x).len() implies (
        #[trigger] sorted.push(x)[i]).full.0 <= (#[trigger] sorted.push(x)[j]).full.0 by {
            if j == sorted.len() && i < j {
                assert(sorted[i].full.0 <= sorted[sorted.len() - 1].full.0);
            }
        }
    }
}

/// Sorted regions start in order.
pub proof fn law_sorted_regions_in_order(rs: Seq<RegionView>)
    ensures
        regions_in_order(sorted_regions(rs)),
        sorted_regions(rs).len() == rs.len(),
    decreases rs.len(),
{
    if rs.len() > 0 {
        law_sorted_regions_in_order(rs.drop_last());
        lemma_insert_region_in_order(sorted_regions(rs.drop_last()), rs.last());
    }
}

// ---------------------------------------------------------------------------
// Regions in a range
// ---------------------------------------------------------------------------

/// The region and the range `start..end` have a byte in common, or the region reaches
/// over an empty range inside it.
pub open spec fn touches(r: RegionView, start: int, end: int) -> bool {
    r.full.0 < end && r.full.1 > start
}

/// The regions that touch a range, in order.
pub open spec fn touching(rs: Seq<RegionView>, start: int, end: int) -> Seq<RegionView>
    decreases rs.len(),
{
    if rs.len() == 0 {
        seq![]
    } else {
        let rest = touching(rs.drop_last(), start, end);
        if touches(rs.last(), start, end) {
            rest.push(rs.last())
        } else {
            rest
        }
    }
}

/// Get inline styles that overlap with a byte range.
///
/// `styles` must be sorted by `full_range.start` (ascending).
pub fn styles_in_range<'a>(styles: &'a [StyledRegion], range: &Range<usize>) -> (r: Vec<
    &'a StyledRegion,
>)
    requires
        regions_in_order(regions_view(styles@)),
    ensures
        r@.map_values(|s: &StyledRegion| s@) == touching(
            regions_view(styles@),
            range.start as int,
            range.end as int,
        ),
{
    let ghost rs = regions_view(styles@);
    let ghost s0 = range.start as int;
    let ghost e0 = range.end as int;
    let mut out: Vec<&'a StyledRegion> = Vec::new();
    let mut i: usize = 0;
    assert(rs.subrange(0, 0) =~= Seq::<RegionView>::empty());
    assert(out@.map_values(|s: &StyledRegion| s@) =~= Seq::<RegionView>::empty());
    // Regions start in order, so from the first one that starts at or after the end of
    // the range on, none can overlap. Before it, an enclosing region may start several
    // indices earlier, so all are looked at.
    while i < styles.len() && styles[i].full_range.start < range.end
        invariant
            i <= styles@.len(),
            rs == regions_view(styles@),
            s0 == range.start,
            e0 == range.end,
            out@.map_values(|s: &StyledRegion| s@) == touching(rs.subrange(0, i as int), s0, e0),
        decreases styles@.len() - i,
    {
        let s = &styles[i];
        proof {
            let upto = rs.subrange(0, i + 1);
            assert(upto.drop_last() =~= rs.subrange(0, i as int));
            assert(upto.last() == s@);
        }
        if s.full_range.end > range.start {
            let ghost before = out@;
            out.push(s);
            assert(out@.map_values(|s: &StyledRegion| s@) =~= before.map_values(
                |s: &StyledRegion| s@,
            ).push(s@));
        }
        i += 1;
    }
    proof {
        assert forall|k: int| i <= k < rs.len() implies !touches(#[trigger] rs[k], s0, e0) by {
            assert(rs[i as int] == styles@[i as int]@);
            assert(rs[i as int].full.0 <= rs[k].full.0);
        }
        lemma_touching_prefix(rs, s0, e0, i as int);
    }
    out
}

proof fn lemma_touching_prefix(rs: Seq<RegionView>, start: int, end: int, k: int)
    requires
        0 <= k <= rs.len(),
        forall|i: int| k <= i < rs.len() ==> !touches(#[trigger] rs[i], start, end),
    ensures
        touching(rs, start, end) == touching(rs.subrange(0, k), start, end),
    decreases rs.len(),
{
    if k == rs.len() {
        assert(rs.subrange(0, k) =~= rs);
    } else {
        let t = rs.drop_last();
        assert(!touches(rs[rs.len() - 1], start, end));
        assert forall|i: int| k <= i < t.len() implies !touches(#[trigger] t[i], start, end) by {
            assert(!touches(rs[i], start, end));
        }
        lemma_touching_prefix(t, start, end, k);
        assert(t.subrange(0, k) =~= rs.subrange(0, k));
    }
}

// ---------------------------------------------------------------------------
// Laws
// ---------------------------------------------------------------------------

/// What either style has, both at once have, and nothing else; the larger heading counts.
pub proof fn law_merge_keeps_both(a: TextStyle, b: TextStyle)
    ensures
        ({
            let m = merged(a, b);
            &&& m.bold <==> a.bold || b.bold
            &&& m.italic <==> a.italic || b.italic
            &&& m.code <==> a.code || b.code
            &&& m.strikethrough <==> a.strikethrough || b.strikethrough
            &&& a.heading_level <= m.heading_level && b.heading_level <= m.heading_level
            &&& m.heading_level == a.heading_level || m.heading_level == b.heading_level
        }),
{
}

/// Emphasis is italic, strong emphasis bold, a code span code and a strikethrough struck
/// through, each that alone; a link and an image have no style. What is no such node is no
/// region.
pub proof fn law_kinds_of_regions(nodes: Seq<SyntaxNode>, bytes: Seq<u8>, i: int)
    ensures
        ({
            let r = region_of(nodes, bytes, i);
            let k = nodes[i].kind;
            let only = |bold: bool, italic: bool, code: bool, strikethrough: bool|
                TextStyle { bold, italic, code, strikethrough, heading_level: 0 };
            let link = k == NodeKind::InlineLink || k == NodeKind::FullReferenceLink || k
                == NodeKind::CollapsedReferenceLink || k == NodeKind::ShortcutLink;
            &&& k == NodeKind::Emphasis ==> r is Some && (r->0).style == only(
                false,
                true,
                false,
                false,
            )
            &&& k == NodeKind::StrongEmphasis ==> r is Some && (r->0).style == only(
                true,
                false,
                false,
                false,
            )
            &&& k == NodeKind::CodeSpan ==> r is Some && (r->0).style == only(
                false,
                false,
                true,
                false,
            )
            &&& k == NodeKind::Strikethrough && r is Some ==> (r->0).style == only(
                false,
                false,
                false,
                true,
            )
            &&& k == NodeKind::Strikethrough && (forall|j: int|
                0 <= j < i ==> (#[trigger] nodes[j]).kind != NodeKind::Strikethrough) ==> r is Some
            &&& (link || k == NodeKind::Image) && r is Some ==> (r->0).style == only(
                false,
                false,
                false,
                false,
            )
            &&& link && k != NodeKind::ShortcutLink ==> r is Some
            &&& r is Some ==> (r->0).full == (nodes[i].start as int, nodes[i].end as int)
            &&& r is Some ==> ((r->0).is_image <==> k == NodeKind::Image)
            &&& r is Some ==> (r->0).checkbox is None && (r->0).display_text is None
            &&& r is Some && !link && k != NodeKind::Image ==> (r->0).link_url is None
            &&& !link && k != NodeKind::Image && k != NodeKind::Emphasis && k
                != NodeKind::StrongEmphasis && k != NodeKind::CodeSpan && k
                != NodeKind::Strikethrough ==> r is None
        }),
{
    if forall|j: int| 0 <= j < i ==> (#[trigger] nodes[j]).kind != NodeKind::Strikethrough {
        assert forall|j: int| !(#[trigger] strikes(nodes, j, i)) by {
            if 0 <= j < i {
                assert(nodes[j].kind != NodeKind::Strikethrough);
            }
        }
    }
}

/// A strikethrough inside another one is no region of its own.
pub proof fn law_nested_strikethrough(nodes: Seq<SyntaxNode>, bytes: Seq<u8>, j: int, i: int)
    requires
        0 <= j < i < subtree_end(depths_of(nodes), j),
        nodes[j].kind == NodeKind::Strikethrough,
        nodes[i].kind == NodeKind::Strikethrough,
    ensures
        region_of(nodes, bytes, i) is None,
{
    assert(strikes(nodes, j, i));
}

/// Child `k` of node `i` is a delimiter.
pub open spec fn delimits(nodes: Seq<SyntaxNode>, i: int, k: int) -> bool {
    let kind = nodes[children_of(nodes, i)[k]].kind;
    kind == NodeKind::EmphasisDelimiter || kind == NodeKind::OtherDelimiter
}

/// Child `k` of node `i` is text or another style.
pub open spec fn is_inner(nodes: Seq<SyntaxNode>, i: int, k: int) -> bool {
    let kind = nodes[children_of(nodes, i)[k]].kind;
    kind != NodeKind::EmphasisDelimiter && kind != NodeKind::OtherDelimiter && kind
        != NodeKind::CodeSpanDelimiter && kind != NodeKind::FencedCodeBlockDelimiter && kind
        != nodes[i].kind
}

/// The content of text between two delimiters is what is between them.
pub proof fn law_delimited_content(
    nodes: Seq<SyntaxNode>,
    bytes: Seq<u8>,
    i: int,
)
    requires
        0 <= i < nodes.len(),
        children_of(nodes, i).len() >= 2,
        nodes[i].kind == NodeKind::Emphasis || nodes[i].kind == NodeKind::StrongEmphasis
            || nodes[i].kind == NodeKind::Strikethrough,
        delimits(nodes, i, 0),
        delimits(nodes, i, children_of(nodes, i).len() - 1),
        forall|k: int|
            0 < k < children_of(nodes, i).len() - 1 ==> #[trigger] is_inner(nodes, i, k),
        nodes[children_of(nodes, i)[0]].start == nodes[i].start,
        nodes[children_of(nodes, i).last()].end == nodes[i].end,
        nodes[i].start < nodes[children_of(nodes, i).last()].start,
        nodes[children_of(nodes, i)[0]].end < nodes[children_of(nodes, i).last()].start,
        region_of(nodes, bytes, i) is Some,
    ensures
        (region_of(nodes, bytes, i)->0).content == (
            nodes[children_of(nodes, i)[0]].end as int,
            nodes[children_of(nodes, i).last()].start as int,
        ),
{
    let kids = children_of(nodes, i);
    let n = kids.len() as int;
    let a = (nodes[kids[0]].start as int, nodes[kids[0]].end as int);
    let b = (nodes[kids[n - 1]].start as int, nodes[kids[n - 1]].end as int);
    lemma_first_delimiter(nodes, i, n - 1, a);
    assert(delimiters(nodes, i, n) =~= seq![a, b]);
    lemma_two_delimiters(a, b, nodes[i].start as int, nodes[i].end as int);
}

proof fn lemma_first_delimiter(nodes: Seq<SyntaxNode>, i: int, k: int, a: (int, int))
    requires
        0 <= i < nodes.len(),
        1 <= k < children_of(nodes, i).len(),
        nodes[i].kind == NodeKind::Emphasis || nodes[i].kind == NodeKind::StrongEmphasis
            || nodes[i].kind == NodeKind::Strikethrough,
        delimits(nodes, i, 0),
        a == (
            nodes[children_of(nodes, i)[0]].start as int,
            nodes[children_of(nodes, i)[0]].end as int,
        ),
        forall|j: int| 0 < j < k ==> #[trigger] is_inner(nodes, i, j),
    ensures
        delimiters(nodes, i, k) == seq![a],
    decreases k,
{
    if k == 1 {
        assert(delimiters(nodes, i, 0) =~= seq![]);
        assert(delimiters(nodes, i, 1) =~= seq![a]);
    } else {
        lemma_first_delimiter(nodes, i, k - 1, a);
        assert(is_inner(nodes, i, k - 1));
        assert(delimiters(nodes, i, k) =~= delimiters(nodes, i, k - 1));
    }
}

proof fn lemma_two_delimiters(a: (int, int), b: (int, int), start: int, end: int)
    requires
        a.0 == start,
        b.1 == end,
        a.1 < b.0,
        start < b.0,
    ensures
        after_openers(seq![a, b], start) == a.1,
        before_closers(seq![a, b], end) == b.0,
{
    let ds = seq![a, b];
    assert(ds.drop_last() =~= seq![a]);
    assert(seq![a].drop_last() =~= seq![]);
    assert(after_openers(seq![a].drop_last(), start) == start);
    assert(after_openers(seq![a], start) == a.1);
    assert(ds.drop_first() =~= seq![b]);
    assert(seq![b].drop_first() =~= seq![]);
    assert(before_closers(seq![b].drop_first(), end) == end);
    assert(before_closers(seq![b], end) == b.0);
}

/// The delimiters that follow one another at either end are all left out: those of bold
/// text, which has two at each end.
pub proof fn law_doubled_delimiters(
    a: (int, int),
    b: (int, int),
    c: (int, int),
    d: (int, int),
    start: int,
    end: int,
)
    requires
        a.0 == start,
        a.1 == b.0,
        a.0 < a.1,
        b.0 < b.1,
        b.1 < c.0,
        c.0 < c.1,
        c.1 == d.0,
        d.0 < d.1,
        d.1 == end,
    ensures
        after_openers(seq![a, b, c, d], start) == b.1,
        before_closers(seq![a, b, c, d], end) == c.0,
{
    reveal_with_fuel(after_openers, 5);
    reveal_with_fuel(before_closers, 5);
    let ds = seq![a, b, c, d];
    assert(ds.drop_last() =~= seq![a, b, c]);
    assert(seq![a, b, c].drop_last() =~= seq![a, b]);
    assert(seq![a, b].drop_last() =~= seq![a]);
    assert(seq![a].drop_last() =~= seq![]);
    assert(ds.drop_first() =~= seq![b, c, d]);
    assert(seq![b, c, d].drop_first() =~= seq![c, d]);
    assert(seq![c, d].drop_first() =~= seq![d]);
    assert(seq![d].drop_first() =~= seq![]);
}

/// The content of a code span is what is between its two delimiters.
pub proof fn law_code_content(nodes: Seq<SyntaxNode>, bytes: Seq<u8>, i: int)
    requires
        nodes[i].kind == NodeKind::CodeSpan,
        children_of(nodes, i).len() == 2,
        nodes[children_of(nodes, i)[0]].kind == NodeKind::CodeSpanDelimiter,
        nodes[children_of(nodes, i)[1]].kind == NodeKind::CodeSpanDelimiter,
        nodes[children_of(nodes, i)[0]].start == nodes[i].start,
        nodes[children_of(nodes, i)[1]].start > nodes[i].start,
        nodes[children_of(nodes, i)[1]].end == nodes[i].end,
    ensures
        (region_of(nodes, bytes, i)->0).content == (
            nodes[children_of(nodes, i)[0]].end as int,
            nodes[children_of(nodes, i)[1]].start as int,
        ),
{
    reveal_with_fuel(code_content, 3);
}

/// A link shows its text and goes to its destination; an image shows its description and is
/// read from its destination. An image without a destination is none.
pub proof fn law_links(nodes: Seq<SyntaxNode>, bytes: Seq<u8>, i: int)
    requires
        children_of(nodes, i).len() == 2,
        nodes[children_of(nodes, i)[1]].kind == NodeKind::LinkDestination,
    ensures
        ({
            let text = nodes[children_of(nodes, i)[0]];
            let to = nodes[children_of(nodes, i)[1]];
            let url = decode_utf8(bytes.subrange(to.start as int, to.end as int));
            let r = region_of(nodes, bytes, i);
            &&& nodes[i].kind == NodeKind::InlineLink && text.kind == NodeKind::LinkText
                ==> r is Some && (r->0).content == (text.start as int, text.end as int)
                && (r->0).link_url == Some(url) && !(r->0).is_image
            &&& nodes[i].kind == NodeKind::Image && text.kind == NodeKind::ImageDescription
                ==> r is Some && (r->0).content == (text.start as int, text.end as int)
                && (r->0).link_url == Some(url) && (r->0).is_image
        }),
{
    reveal_with_fuel(link_parts, 3);
}

/// An image without a destination is no region.
pub proof fn law_images_need_a_destination(nodes: Seq<SyntaxNode>, bytes: Seq<u8>, i: int)
    requires
        nodes[i].kind == NodeKind::Image,
        forall|k: int|
            0 <= k < children_of(nodes, i).len() ==> nodes[#[trigger] children_of(
                nodes,
                i,
            )[k]].kind != NodeKind::LinkDestination,
    ensures
        region_of(nodes, bytes, i) is None,
{
    lemma_no_destination(
        nodes,
        bytes,
        i,
        NodeKind::ImageDescription,
        children_of(nodes, i).len() as int,
    );
}

proof fn lemma_no_destination(
    nodes: Seq<SyntaxNode>,
    bytes: Seq<u8>,
    i: int,
    text_kind: NodeKind,
    k: int,
)
    requires
        0 <= k <= children_of(nodes, i).len(),
        forall|j: int|
            0 <= j < children_of(nodes, i).len() ==> nodes[#[trigger] children_of(
                nodes,
                i,
            )[j]].kind != NodeKind::LinkDestination,
    ensures
        link_parts(nodes, bytes, i, text_kind, k).url is None,
    decreases k,
{
    if k > 0 {
        lemma_no_destination(nodes, bytes, i, text_kind, k - 1);
        assert(nodes[children_of(nodes, i)[k - 1]].kind != NodeKind::LinkDestination);
    }
}

/// A shortcut link that reads `[ ]`, `[x]` or `[X]` is a checkbox and no link; any other one
/// is a link.
pub proof fn law_checkboxes_are_no_links(nodes: Seq<SyntaxNode>, bytes: Seq<u8>, i: int)
    requires
        nodes[i].kind == NodeKind::ShortcutLink,
    ensures
        ({
            let text = decode_utf8(bytes.subrange(nodes[i].start as int, nodes[i].end as int));
            region_of(nodes, bytes, i) is None <==> text == seq!['[', ' ', ']'] || text == seq![
                '[',
                'x',
                ']',
            ] || text == seq!['[', 'X', ']']
        }),
{
    reveal_strlit("[ ]");
    reveal_strlit("[x]");
    reveal_strlit("[X]");
    assert("[ ]"@ =~= seq!['[', ' ', ']']);
    assert("[x]"@ =~= seq!['[', 'x', ']']);
    assert("[X]"@ =~= seq!['[', 'X', ']']);
}

/// A link in brackets without a destination shows what is between its brackets.
pub proof fn law_bracketed_links(nodes: Seq<SyntaxNode>, bytes: Seq<u8>, i: int)
    requires
        children_of(nodes, i).len() == 3,
        nodes[children_of(nodes, i)[0]].kind == NodeKind::OpenBracket,
        nodes[children_of(nodes, i)[1]].kind == NodeKind::LinkText,
        nodes[children_of(nodes, i)[2]].kind == NodeKind::CloseBracket,
        nodes[i].kind == NodeKind::CollapsedReferenceLink || nodes[i].kind
            == NodeKind::FullReferenceLink,
    ensures
        ({
            let r = region_of(nodes, bytes, i);
            &&& r is Some
            &&& (r->0).content == (
                nodes[children_of(nodes, i)[0]].end as int,
                nodes[children_of(nodes, i)[2]].start as int,
            )
            &&& (r->0).link_url is None
        }),
{
    reveal_with_fuel(link_parts, 4);
    reveal_with_fuel(bracketed, 4);
}

/// A reference that is known to be valid becomes a link to its page over its own text; any
/// other is no region.
pub proof fn law_valid_references_are_links(
    ms: Seq<MatchView>,
    m: MatchView,
    cache: Map<RefView, StateView>,
)
    ensures
        ({
            let before = ref_regions(ms, cache);
            let after = ref_regions(ms.push(m), cache);
            let valid = cache.dom().contains(m.reference) && cache[m.reference] is Valid;
            &&& valid ==> after == before.push(
                RegionView {
                    full: (m.start, m.end),
                    content: (m.start, m.end),
                    style: TextStyle {
                        bold: false,
                        italic: false,
                        code: false,
                        strikethrough: false,
                        heading_level: 0,
                    },
                    link_url: Some(m.reference.url()),
                    is_image: false,
                    checkbox: None,
                    display_text: None,
                },
            )
            &&& !valid ==> after == before
        }),
{
    assert(ms.push(m).drop_last() =~= ms);
    assert(ms.push(m).last() == m);
}

/// A naked URL is a link to itself. It is shown as a short text where it stands for a
/// reference that is known to be valid, and as it is otherwise.
pub proof fn law_urls_link_to_themselves(
    u: NakedUrlView,
    cache: Map<RefView, StateView>,
    context: Option<(Seq<char>, Seq<char>)>,
)
    ensures
        ({
            let r = url_region(u, cache, context);
            let valid = u.github_ref is Some && cache.dom().contains(u.github_ref->0)
                && cache[u.github_ref->0] is Valid;
            &&& r.full == (u.start, u.end) && r.content == (u.start, u.end)
            &&& r.link_url == Some(u.url)
            &&& !r.is_image && r.checkbox is None
            &&& !r.style.bold && !r.style.italic && !r.style.code && !r.style.strikethrough
                && r.style.heading_level == 0
            &&& valid ==> r.display_text == Some((u.github_ref->0).short_display(context))
            &&& !valid ==> r.display_text is None
        }),
{
}

/// The regions of a range are those that reach into it: each of them, once, and in order.
pub proof fn law_regions_of_a_range(rs: Seq<RegionView>, r: RegionView, start: int, end: int)
    ensures
        touching(seq![], start, end).len() == 0,
        r.full.0 < end && r.full.1 > start ==> touching(rs.push(r), start, end) == touching(
            rs,
            start,
            end,
        ).push(r),
        r.full.0 >= end || r.full.1 <= start ==> touching(rs.push(r), start, end) == touching(
            rs,
            start,
            end,
        ),
{
    assert(rs.push(r).drop_last() =~= rs);
    assert(rs.push(r).last() == r);
}

/// Sorting loses and invents no region, and leaves regions that start in order as they are.
pub proof fn law_sorting_keeps_the_regions(rs: Seq<RegionView>)
    ensures
        sorted_regions(rs).to_multiset() == rs.to_multiset(),
        regions_in_order(rs) ==> sorted_regions(rs) == rs,
    decreases rs.len(),
{
    if rs.len() > 0 {
        let rest = rs.drop_last();
        law_sorting_keeps_the_regions(rest);
        lemma_insert_keeps(sorted_regions(rest), rs.last());
        vstd::seq_lib::to_multiset_build(rest, rs.last());
        assert(rest.push(rs.last()) =~= rs);
        assert(rs.to_multiset() =~= rest.to_multiset().insert(rs.last()));
        if regions_in_order(rs) {
            assert forall|i: int, j: int| 0 <= i <= j < rest.len() implies (
            #[trigger] rest[i]).full.0 <= (#[trigger] rest[j]).full.0 by {
                assert(rest[i] == rs[i] && rest[j] == rs[j]);
            }
            if rest.len() > 0 {
                assert(rs[rest.len() - 1].full.0 <= rs[rs.len() - 1].full.0);
            }
            assert(sorted_regions(rs) =~= rs);
        }
    } else {
        assert(sorted_regions(rs) =~= rs);
    }
}

proof fn lemma_insert_keeps(sorted: Seq<RegionView>, x: RegionView)
    ensures
        insert_region(sorted, x).to_multiset() == sorted.to_multiset().insert(x),
    decreases sorted.len(),
{
    vstd::seq_lib::to_multiset_build(sorted, x);
    if sorted.len() > 0 && sorted.last().full.0 > x.full.0 {
        let rest = sorted.drop_last();
        vstd::seq_lib::to_multiset_build(rest, sorted.last());
        vstd::seq_lib::to_multiset_build(insert_region(rest, x), sorted.last());
        lemma_insert_keeps(rest, x);
        assert(rest.push(sorted.last()) =~= sorted);
        assert(insert_region(rest, x).push(sorted.last()).to_multiset() =~= insert_region(
            rest,
            x,
        ).to_multiset().insert(sorted.last()));
        assert(sorted.to_multiset() =~= rest.to_multiset().insert(sorted.last()));
        assert(insert_region(sorted, x).to_multiset() =~= sorted.to_multiset().insert(x));
    } else {
        assert(sorted.push(x).to_multiset() =~= sorted.to_multiset().insert(x));
    }
}

/// Every node that is a region is among the regions of its tree, and those of each tree
/// are among the regions of all.
pub proof fn law_every_region_is_collected(
    trees: Seq<Seq<SyntaxNode>>,
    bytes: Seq<u8>,
    t: int,
    i: int,
)
    requires
        0 <= t < trees.len(),
        0 <= i < trees[t].len(),
        region_of(trees[t], bytes, i) is Some,
    ensures
        trees_regions(trees, bytes, trees.len() as int).contains(
            region_of(trees[t], bytes, i)->0,
        ),
{
    lemma_tree_region(trees[t], bytes, i, trees[t].len() as int);
    lemma_trees_region(
        trees,
        bytes,
        t,
        trees.len() as int,
        region_of(trees[t], bytes, i)->0,
    );
}

proof fn lemma_tree_region(nodes: Seq<SyntaxNode>, bytes: Seq<u8>, i: int, k: int)
    requires
        0 <= i < k <= nodes.len(),
        region_of(nodes, bytes, i) is Some,
    ensures
        tree_regions(nodes, bytes, k).contains(region_of(nodes, bytes, i)->0),
    decreases k,
{
    let r = region_of(nodes, bytes, i)->0;
    let rest = tree_regions(nodes, bytes, k - 1);
    let all = tree_regions(nodes, bytes, k);
    if i == k - 1 {
        assert(all[rest.len() as int] == r);
    } else {
        lemma_tree_region(nodes, bytes, i, k - 1);
        let p = rest.index_of(r);
        assert(rest[p] == r);
        assert(all[p] == r);
    }
}

proof fn lemma_trees_region(
    trees: Seq<Seq<SyntaxNode>>,
    bytes: Seq<u8>,
    t: int,
    k: int,
    r: RegionView,
)
    requires
        0 <= t < k <= trees.len(),
        tree_regions(trees[t], bytes, trees[t].len() as int).contains(r),
    ensures
        trees_regions(trees, bytes, k).contains(r),
    decreases k,
{
    let rest = trees_regions(trees, bytes, k - 1);
    let own = tree_regions(trees[k - 1], bytes, trees[k - 1].len() as int);
    let all = trees_regions(trees, bytes, k);
    if t == k - 1 {
        let p = own.index_of(r);
        assert(own[p] == r);
        assert(all[rest.len() + p] == r);
    } else {
        lemma_trees_region(trees, bytes, t, k - 1, r);
        let p = rest.index_of(r);
        assert(rest[p] == r);
        assert(all[p] == r);
    }
}

} // verus!
