//! Per-line styling: turns a line of a [`RenderSnapshot`] into a display string, a
//! font scale (headings are larger), and [`StyleRun`]s over the display string.
//!
//! Markdown markers (emphasis `**`/`*`/`` ` ``, heading `# `) are hidden when the
//! cursor is off their region, and the [`SegmentMap`] maps the display text back to
//! buffer bytes.
use crate::highlight::HighlightSpan;
use crate::inline::{
    insert_sorted, law_sorted_regions_in_order, plain_region, push_region, regions_view, sorted_regions, RegionView,
    StyledRegion,
};
use crate::marker::{
    any_kind, first_kind, law_span_combines, span, LineMarkers, LineMarkersView, Marker,
    MarkerClass, MarkerKind, MarkerKindView, MarkerView, UnorderedMarker,
};
use crate::rope::{rope_byte, rope_bytes, rope_slice, rope_text};
use crate::segment_map::{
    apart, at_chars, built, built_map, built_upto, cuts_at_chars, holds_byte, in_line, in_special,
    law_char_specials_cut, law_display_is_the_shown_line, law_identity_round_trips,
    law_one_special, law_two_specials, law_whole_line_hidden, max2, min2,
    shown_at, shown_upto, starts_at, SegmentMap, SegmentMapView, Special, SpecialView,
};
use crate::text::{
    byte_len, chars_of, is_slice, lemma_ascii_boundary, slice, trim_end, trim_left, trim_right,
    trim_start,
};
use crate::text_engine::{plain_run, runs_view, RunView, StyleRun};
use crate::theme::ThemeColor;
use std::ops::Range;
use vstd::prelude::*;
use vstd::string::*;
use vstd::utf8::*;

verus! {

// ---------------------------------------------------------------------------
// What goes in
// ---------------------------------------------------------------------------

/// One line of a snapshot: its markers and the highlights of its code.
pub struct SnapshotLine {
    pub markers: LineMarkers,
    pub code_highlights: Vec<HighlightSpan>,
}

/// A document as it is drawn: its text and its lines.
pub struct RenderSnapshot {
    pub rope: ropey::Rope,
    pub lines: Vec<SnapshotLine>,
}

impl RenderSnapshot {
    /// The markers of a line.
    pub fn line_markers(&self, line_idx: usize) -> (r: &LineMarkers)
        requires
            line_idx < self.lines@.len(),
        ensures
            r == self.lines@[line_idx as int].markers,
    {
        &self.lines[line_idx].markers
    }

    /// The highlights of a line's code.
    pub fn code_highlights_for_line(&self, line_idx: usize) -> (r: &Vec<HighlightSpan>)
        requires
            line_idx < self.lines@.len(),
        ensures
            r == self.lines@[line_idx as int].code_highlights,
    {
        &self.lines[line_idx].code_highlights
    }
}

/// Half-open-on-the-left, closed-on-the-right containment: the cursor is "in" a
/// region when sitting anywhere from its start through its end (so a cursor at the
/// closing delimiter still reveals the region for editing).
pub open spec fn cursor_inside(range: (int, int), cursor: int) -> bool {
    range.0 <= cursor <= range.1
}

/// The cursor sits in the range or at its end.
pub fn cursor_in(range: &Range<usize>, cursor: usize) -> (r: bool)
    ensures
        r == cursor_inside((range.start as int, range.end as int), cursor as int),
{
    cursor >= range.start && cursor <= range.end
}

// ---------------------------------------------------------------------------
// What comes out
// ---------------------------------------------------------------------------

/// A standalone image on a line: a paragraph whose only content is `![alt](url)`.
/// Drawn as an actual image block; `alt` is shown in the pending/broken placeholder.
#[derive(Clone, Debug, PartialEq)]
pub struct ImageRef {
    pub url: String,
    pub alt: String,
}

/// An image appearing inline within a line (e.g. a badge row, or mixed with text) —
/// as opposed to a standalone-image paragraph. Its `![alt](url)` span is collapsed to
/// a zero-width point in the display, where the draw path reserves a box.
#[derive(Clone, Debug, PartialEq)]
pub struct InlineImageRef {
    pub url: String,
    pub alt: String,
    /// Display byte offset of the collapsed image's zero-width point (where the inline
    /// box sits). Ordered left-to-right across a line.
    pub display_offset: usize,
}

/// Fully-resolved styling for one line.
#[derive(Clone, Debug)]
pub struct LineRender {
    pub text: String,
    /// The font size in percent of the base size.
    pub font_scale: u16,
    pub runs: Vec<StyleRun>,
    /// Maps the display `text` back to buffer bytes (for cursor/click/diff).
    pub map: SegmentMap,
    /// Display byte offset where the line's content begins (after list/quote/heading
    /// markers). Wrapped rows hang-indent under this column; 0 means no marker prefix.
    pub content_start: usize,
    /// Display byte offset of each blockquote marker on the line (outermost first), one
    /// per nesting level. The draw path measures each to an x and paints a continuous
    /// vertical rule there, so the quote bar spans wrapped rows and adjacent lines.
    pub quote_bar_bytes: Vec<usize>,
    /// This line is a thematic break rendered as a horizontal rule (its `---` text is
    /// hidden). False while the cursor is on the line, so the `---` is editable.
    pub is_hr: bool,
    /// Display byte ranges of inline `code` spans, for painting a subtle background
    /// chip behind them (they'd otherwise be indistinguishable in a monospace body).
    pub code_ranges: Vec<Range<usize>>,
    /// This line is a standalone image (`![alt](url)` as the whole paragraph): its
    /// markdown text is hidden and an image block is drawn instead. `None` while the
    /// cursor is on the line, so the raw markdown is revealed for editing.
    pub image: Option<ImageRef>,
    /// Inline images on the line (`![alt](url)` mixed with text or other images), each
    /// collapsed to a zero-width point where the draw path reserves an inline box. Those
    /// that the cursor is in are revealed and not listed. Ordered by `display_offset`.
    pub inline_images: Vec<InlineImageRef>,
}

/// An image: its URL and its alt text.
pub struct ImageView {
    pub url: Seq<char>,
    pub alt: Seq<char>,
}

/// An image at an offset.
pub struct BoxView {
    pub url: Seq<char>,
    pub alt: Seq<char>,
    pub at: int,
}

impl View for ImageRef {
    type V = ImageView;

    open spec fn view(&self) -> ImageView {
        ImageView { url: self.url@, alt: self.alt@ }
    }
}

impl View for InlineImageRef {
    type V = BoxView;

    open spec fn view(&self) -> BoxView {
        BoxView { url: self.url@, alt: self.alt@, at: self.display_offset as int }
    }
}

/// What an optional image says.
pub open spec fn image_if_any(i: Option<ImageRef>) -> Option<ImageView> {
    match i {
        Some(i) => Some(i@),
        None => None,
    }
}

/// What some inline images say.
pub open spec fn boxes_view(bs: Seq<InlineImageRef>) -> Seq<BoxView> {
    bs.map_values(|b: InlineImageRef| b@)
}

/// Ranges as (start, end).
pub open spec fn pairs_of(rs: Seq<Range<usize>>) -> Seq<(int, int)> {
    rs.map_values(|r: Range<usize>| (r.start as int, r.end as int))
}

/// Offsets as numbers.
pub open spec fn ints_of(v: Seq<usize>) -> Seq<int> {
    v.map_values(|x: usize| x as int)
}

/// What a [`LineRender`] says, with the text in bytes.
pub struct RenderView {
    pub text: Seq<u8>,
    pub font_scale: int,
    pub runs: Seq<RunView>,
    pub map: SegmentMapView,
    pub content_start: int,
    pub quote_bars: Seq<int>,
    pub is_hr: bool,
    pub code_ranges: Seq<(int, int)>,
    pub image: Option<ImageView>,
    pub inline_images: Seq<BoxView>,
}

impl View for LineRender {
    type V = RenderView;

    open spec fn view(&self) -> RenderView {
        RenderView {
            text: encode_utf8(self.text@),
            font_scale: self.font_scale as int,
            runs: runs_view(self.runs@),
            map: self.map@,
            content_start: self.content_start as int,
            quote_bars: ints_of(self.quote_bar_bytes@),
            is_hr: self.is_hr,
            code_ranges: pairs_of(self.code_ranges@),
            image: image_if_any(self.image),
            inline_images: boxes_view(self.inline_images@),
        }
    }
}

// ---------------------------------------------------------------------------
// Fonts
// ---------------------------------------------------------------------------

/// The font size of a heading level in percent: 1 is the largest, 0 is body text.
pub open spec fn spec_heading_scale(level: u8) -> u16 {
    if level == 1 {
        180
    } else if level == 2 {
        150
    } else if level == 3 {
        130
    } else if level == 4 {
        115
    } else if level == 5 {
        105
    } else {
        100
    }
}

/// Font-size multiplier, in percent, for a heading level (1 = largest). 0 = body text.
pub fn heading_scale(level: u8) -> (r: u16)
    ensures
        r == spec_heading_scale(level),
{
    match level {
        1 => 180,
        2 => 150,
        3 => 130,
        4 => 115,
        5 => 105,
        _ => 100,
    }
}

// ---------------------------------------------------------------------------
// The line being styled
// ---------------------------------------------------------------------------

/// The regions of the checkboxes among some markers: their `[ ]`.
pub open spec fn checkbox_regions(ms: Seq<MarkerView>) -> Seq<RegionView>
    decreases ms.len(),
{
    if ms.len() == 0 {
        seq![]
    } else {
        let rest = checkbox_regions(ms.drop_last());
        let m = ms.last();
        match m.kind {
            MarkerKindView::Checkbox { checked } => rest.push(
                RegionView {
                    checkbox: Some(checked),
                    ..plain_region((m.start, m.start + 3))
                },
            ),
            _ => rest,
        }
    }
}

/// Some marker is a checkbox.
pub open spec fn any_checkbox(ms: Seq<MarkerView>) -> bool {
    any_kind(ms, |k: MarkerKindView| k is Checkbox)
}

/// The regions of a line: the styles of its text with its checkboxes, in the order in
/// which they start, and behind them the extra ones.
pub open spec fn merged_regions(
    ms: Seq<MarkerView>,
    styles: Seq<RegionView>,
    extra: Seq<RegionView>,
) -> Seq<RegionView> {
    if !any_checkbox(ms) && extra.len() == 0 {
        styles
    } else {
        sorted_regions(styles + checkbox_regions(ms)) + extra
    }
}

/// A line being styled: its text (without the line break) from offset `start`, its
/// markers, the highlights of its code, its regions, and where the cursor is.
struct LineInput<'a> {
    text: String,
    start: usize,
    end: usize,
    markers: &'a LineMarkers,
    highlights: &'a Vec<HighlightSpan>,
    regions: Vec<StyledRegion>,
    cursor: usize,
}

/// What a line being styled says.
pub struct LineView {
    pub bytes: Seq<u8>,
    pub start: int,
    pub markers: LineMarkersView,
    pub highlights: Seq<HighlightSpan>,
    pub regions: Seq<RegionView>,
    pub cursor: int,
}

impl<'a> LineInput<'a> {
    spec fn view(&self) -> LineView {
        LineView {
            bytes: encode_utf8(self.text@),
            start: self.start as int,
            markers: self.markers@,
            highlights: self.highlights@,
            regions: regions_view(self.regions@),
            cursor: self.cursor as int,
        }
    }

    spec fn wf(&self) -> bool {
        &&& self.end == self.start + encode_utf8(self.text@).len()
        &&& self.start == self.markers.range.start
        &&& self.end <= self.markers.range.end
    }
}

/// Where the text of a line ends: before its line break, if it ends with one.
pub open spec fn text_end(bytes: Seq<u8>, start: int, end: int) -> int {
    if end > start && 0 < end <= bytes.len() && bytes[end - 1] == 0x0a {
        end - 1
    } else {
        end
    }
}

/// A line of a document with the text `bytes`.
pub open spec fn line_view(
    bytes: Seq<u8>,
    line: SnapshotLine,
    cursor: int,
    styles: Seq<RegionView>,
    extra: Seq<RegionView>,
) -> LineView {
    let m = line.markers@;
    LineView {
        bytes: bytes.subrange(m.start, text_end(bytes, m.start, m.end)),
        start: m.start,
        markers: m,
        highlights: line.code_highlights@,
        regions: merged_regions(m.markers, styles, extra),
        cursor,
    }
}

/// A hidden range.
pub open spec fn hidden(start: int, end: int) -> SpecialView {
    SpecialView { start, end, shown: None }
}

/// A range shown as something else.
pub open spec fn shown(start: int, end: int, text: Seq<char>) -> SpecialView {
    SpecialView { start, end, shown: Some(encode_utf8(text)) }
}

impl LineView {
    /// Where the text ends.
    pub open spec fn end(self) -> int {
        self.start + self.bytes.len()
    }

    /// The heading level, 0 for body text.
    pub open spec fn heading_level(self) -> u8 {
        match first_kind(self.markers.markers, |k: MarkerKindView| k is Heading) {
            Some(k) => k->Heading_0,
            None => 0,
        }
    }

    /// The line is a fence.
    pub open spec fn is_fence(self) -> bool {
        any_kind(self.markers.markers, |k: MarkerKindView| k is CodeBlockFence)
    }

    /// The line belongs to a code block.
    pub open spec fn in_code(self) -> bool {
        self.markers.in_code_block || self.is_fence()
    }

    /// The cursor is on the line.
    pub open spec fn on_line(self) -> bool {
        cursor_inside((self.markers.start, self.markers.end), self.cursor)
    }

    /// The state of the line's first checkbox.
    pub open spec fn checkbox(self) -> Option<bool> {
        match first_kind(self.markers.markers, |k: MarkerKindView| k is Checkbox) {
            Some(k) => Some(k->Checkbox_checked),
            None => None,
        }
    }

    /// The line is drawn as a rule.
    pub open spec fn is_hr(self) -> bool {
        any_kind(self.markers.markers, |k: MarkerKindView| k is ThematicBreak) && !self.on_line()
            && !self.in_code()
    }

    /// Where the text starts that is no leading whitespace.
    pub open spec fn trimmed_start(self) -> int {
        self.start + self.bytes.len() - encode_utf8(trim_left(decode_utf8(self.bytes))).len()
    }

    /// Where the text ends that is no trailing whitespace.
    pub open spec fn trimmed_end(self) -> int {
        self.start + encode_utf8(trim_right(decode_utf8(self.bytes))).len()
    }

    /// The region is an image that can be drawn: it has a URL and its alt text is in
    /// the line.
    pub open spec fn is_box(self, r: RegionView) -> bool {
        r.is_image && r.content.0 >= self.start && r.content.1 <= self.end() && r.link_url is Some
    }

    /// The alt text of an image.
    pub open spec fn alt(self, r: RegionView) -> Seq<char> {
        chars_of(self.bytes, r.content.0 - self.start, r.content.1 - self.start)
    }

    /// The image that the line is, where its whole content (ignoring surrounding
    /// whitespace) is one `![alt](url)`, it is its only image, and the cursor is
    /// elsewhere.
    pub open spec fn standalone(self) -> Option<ImageView> {
        let images = image_regions(self.regions);
        if !self.in_code() && !self.on_line() && self.trimmed_start() < self.trimmed_end()
            && images.len() == 1 && images[0].full == (self.trimmed_start(), self.trimmed_end())
            && self.is_box(images[0]) {
            Some(ImageView { url: images[0].link_url->0, alt: self.alt(images[0]) })
        } else {
            None
        }
    }

    /// What is hidden as a whole: a heading's `# `, a rule, a standalone image.
    pub open spec fn whole_specials(self) -> Seq<SpecialView> {
        let heading = match span(self.markers.markers, MarkerClass::Spacer) {
            Some((s, e)) => if self.heading_level() > 0 && !self.on_line() && e <= self.end() {
                seq![hidden(s, e)]
            } else {
                seq![]
            },
            None => seq![],
        };
        let rule = if self.is_hr() && self.bytes.len() > 0 {
            seq![hidden(self.start, self.end())]
        } else {
            seq![]
        };
        let image = if self.standalone() is Some && self.bytes.len() > 0 {
            seq![hidden(self.start, self.end())]
        } else {
            seq![]
        };
        heading + rule + image
    }

    /// What a marker is shown as: list markers as bullets (nothing where a checkbox
    /// stands for them), quote markers as spacing.
    pub open spec fn marker_text(self, k: MarkerKindView) -> Option<Seq<char>> {
        match k {
            MarkerKindView::ListItem { ordered: false, unordered_marker, .. } => Some(
                if any_checkbox(self.markers.markers) {
                    ""@
                } else {
                    match unordered_marker {
                        Some(u) => u.spec_bullet(),
                        None => "• "@,
                    }
                },
            ),
            MarkerKindView::BlockQuote => Some("  "@),
            _ => None,
        }
    }

    /// What the first `k` markers are shown as.
    pub open spec fn marker_specials(self, k: int) -> Seq<SpecialView>
        decreases k,
    {
        if k <= 0 {
            seq![]
        } else {
            let rest = self.marker_specials(k - 1);
            let m = self.markers.markers[k - 1];
            match self.marker_text(m.kind) {
                Some(text) => if m.start >= self.start && m.end <= self.end() {
                    rest.push(shown(m.start, m.end, text))
                } else {
                    rest
                },
                None => rest,
            }
        }
    }

    /// What is hidden or replaced of one region: nothing while the cursor is in it; an
    /// image as a whole; what has a display text by that; else the delimiters.
    pub open spec fn region_specials(self, r: RegionView) -> Seq<SpecialView> {
        if cursor_inside(r.full, self.cursor) {
            seq![]
        } else if self.is_box(r) {
            seq![hidden(r.full.0, r.full.1)]
        } else {
            match r.display_text {
                Some(text) => seq![shown(r.full.0, r.full.1, text)],
                None => (if r.content.0 > r.full.0 {
                    seq![hidden(r.full.0, r.content.0)]
                } else {
                    seq![]
                }) + (if r.full.1 > r.content.1 {
                    seq![hidden(r.content.1, r.full.1)]
                } else {
                    seq![]
                }),
            }
        }
    }

    /// What is hidden or replaced of the first `k` regions.
    pub open spec fn regions_specials(self, k: int) -> Seq<SpecialView>
        decreases k,
    {
        if k <= 0 {
            seq![]
        } else {
            self.regions_specials(k - 1) + self.region_specials(self.regions[k - 1])
        }
    }

    /// The images among the first `k` regions that are drawn as boxes, at their buffer
    /// offsets.
    pub open spec fn boxes(self, k: int) -> Seq<BoxView>
        decreases k,
    {
        if k <= 0 {
            seq![]
        } else {
            let rest = self.boxes(k - 1);
            let r = self.regions[k - 1];
            if !cursor_inside(r.full, self.cursor) && self.is_box(r) {
                rest.push(BoxView { url: r.link_url->0, alt: self.alt(r), at: r.full.0 })
            } else {
                rest
            }
        }
    }

    /// How many regions are looked at: none where an image stands for the line, or in
    /// code.
    pub open spec fn used_regions(self) -> int {
        if self.in_code() || self.standalone() is Some {
            0
        } else {
            self.regions.len() as int
        }
    }

    /// Everything that is hidden or replaced.
    pub open spec fn specials(self) -> Seq<SpecialView> {
        if self.in_code() {
            seq![]
        } else {
            self.whole_specials() + self.marker_specials(self.markers.markers.len() as int)
                + self.regions_specials(self.used_regions())
        }
    }

    /// Texts are cut between characters: the alt texts of the images that are drawn, and
    /// the line round what is hidden or replaced.
    pub open spec fn cuts(self) -> bool {
        &&& forall|i: int|
            0 <= i < self.regions.len() && !self.in_code() && self.is_box(
                #[trigger] self.regions[i],
            ) && !cursor_inside(self.regions[i].full, self.cursor) ==> is_slice(
                self.bytes,
                self.regions[i].content.0 - self.start,
                self.regions[i].content.1 - self.start,
            )
        &&& cuts_at_chars(self.bytes, self.start, self.specials())
    }

    /// The display text.
    pub open spec fn display(self) -> Seq<u8> {
        built(self.bytes, self.start, self.specials()).display
    }

    /// The map between display and buffer.
    pub open spec fn map(self) -> SegmentMapView {
        built_map(self.bytes, self.start, self.specials())
    }

    /// A buffer range in the display.
    pub open spec fn on_display(self, r: (int, int)) -> (int, int) {
        let s = self.map().to_display(r.0);
        let e = self.map().to_display(r.1);
        (min2(s, e), max2(s, e))
    }

    /// The boxes at their display offsets.
    pub open spec fn placed(self, bs: Seq<BoxView>) -> Seq<BoxView> {
        bs.map_values(|b: BoxView| BoxView { at: self.map().to_display(b.at), ..b })
    }

    /// The display offsets of the quote markers among the first `k` markers.
    pub open spec fn bars(self, k: int) -> Seq<int>
        decreases k,
    {
        if k <= 0 {
            seq![]
        } else {
            let rest = self.bars(k - 1);
            let m = self.markers.markers[k - 1];
            if m.kind is BlockQuote {
                insert_int(rest, self.map().to_display(m.start))
            } else {
                rest
            }
        }
    }

    /// The runs of a line of code: everything in the code font; on a fence line the
    /// fence and its info string; the captures on top.
    pub open spec fn code_runs(self) -> Seq<RunView> {
        let text = self.display();
        let n = text.len() as int;
        let base = if n > 0 {
            seq![mono_run(0, n, ThemeColor::Foreground)]
        } else {
            seq![]
        };
        let at = fence_start(text, 0);
        let fence = if self.is_fence() && at < n {
            let e = same_until(text, at, at);
            seq![mono_run(at, e, ThemeColor::Comment)] + (if e < n {
                seq![mono_run(e, n, ThemeColor::Green)]
            } else {
                seq![]
            })
        } else {
            seq![]
        };
        base + fence + self.capture_runs(self.highlights.len() as int)
    }

    /// The runs of the first `k` captures.
    pub open spec fn capture_runs(self, k: int) -> Seq<RunView>
        decreases k,
    {
        if k <= 0 {
            seq![]
        } else {
            let rest = self.capture_runs(k - 1);
            let h = self.highlights[k - 1];
            let r = self.on_display((h.range.start as int, h.range.end as int));
            if r.0 < r.1 {
                rest.push(mono_run(r.0, r.1, ThemeColor::Highlight(h.highlight_id)))
            } else {
                rest
            }
        }
    }

    /// A completed task's content is dimmed.
    pub open spec fn content_color(self) -> ThemeColor {
        if self.checkbox() == Some(true) {
            ThemeColor::Comment
        } else {
            ThemeColor::Foreground
        }
    }

    /// The display range that is styled of a region: the whole of it while the cursor is
    /// in it, else its content.
    pub open spec fn styled(self, r: RegionView) -> (int, int) {
        self.on_display(
            if cursor_inside(r.full, self.cursor) {
                r.full
            } else {
                r.content
            },
        )
    }

    /// The color of a region: a checked box is green, an empty one muted; links are
    /// cyan and code is green.
    pub open spec fn region_color(self, r: RegionView) -> ThemeColor {
        match r.checkbox {
            Some(true) => ThemeColor::Green,
            Some(false) => ThemeColor::Comment,
            None => if r.link_url is Some {
                ThemeColor::Cyan
            } else if r.style.code {
                ThemeColor::Green
            } else {
                self.content_color()
            },
        }
    }

    /// The run of a region.
    pub open spec fn region_run(self, r: RegionView) -> RunView {
        let d = self.styled(r);
        RunView {
            start: d.0,
            end: d.1,
            color: self.region_color(r),
            bold: r.style.bold || self.heading_level() > 0 || r.checkbox == Some(true),
            italic: r.style.italic,
            mono: r.style.code,
            underline: r.link_url is Some,
            strikethrough: r.style.strikethrough,
        }
    }

    /// The runs of the first `k` regions.
    pub open spec fn region_runs(self, k: int) -> Seq<RunView>
        decreases k,
    {
        if k <= 0 {
            seq![]
        } else {
            let rest = self.region_runs(k - 1);
            let r = self.regions[k - 1];
            let d = self.styled(r);
            if d.0 < d.1 {
                rest.push(self.region_run(r))
            } else {
                rest
            }
        }
    }

    /// The display ranges of the inline code among the first `k` regions.
    pub open spec fn chips(self, k: int) -> Seq<(int, int)>
        decreases k,
    {
        if k <= 0 {
            seq![]
        } else {
            let rest = self.chips(k - 1);
            let r = self.regions[k - 1];
            let d = self.styled(r);
            if d.0 < d.1 && r.style.code && r.checkbox is None && r.link_url is None {
                rest.push(d)
            } else {
                rest
            }
        }
    }

    /// The runs of a line of text: a dimming run for a completed task, a bold run for a
    /// heading, and those of the regions.
    pub open spec fn text_runs(self) -> Seq<RunView> {
        let n = self.display().len() as int;
        let dim = if self.checkbox() == Some(true) && n > 0 {
            seq![plain_run(0, n, ThemeColor::Comment)]
        } else {
            seq![]
        };
        let heading = if self.heading_level() > 0 && n > 0 {
            seq![RunView { bold: true, ..plain_run(0, n, ThemeColor::Purple) }]
        } else {
            seq![]
        };
        dim + heading + self.region_runs(self.regions.len() as int)
    }

    /// The offset where the content starts, after all markers.
    pub open spec fn content_start(self) -> int {
        match span(self.markers.markers, MarkerClass::All) {
            Some((_, e)) => e,
            None => self.markers.start,
        }
    }

    /// The styled line.
    pub open spec fn rendered(self) -> RenderView {
        RenderView {
            text: self.display(),
            font_scale: spec_heading_scale(self.heading_level()) as int,
            runs: if self.in_code() {
                self.code_runs()
            } else {
                self.text_runs()
            },
            map: self.map(),
            content_start: self.map().to_display(self.content_start()),
            quote_bars: if self.in_code() {
                seq![]
            } else {
                self.bars(self.markers.markers.len() as int)
            },
            is_hr: self.is_hr(),
            code_ranges: if self.in_code() {
                seq![]
            } else {
                self.chips(self.regions.len() as int)
            },
            image: self.standalone(),
            inline_images: sorted_boxes(self.placed(self.boxes(self.used_regions()))),
        }
    }
}

/// The regions that are images.
pub open spec fn image_regions(rs: Seq<RegionView>) -> Seq<RegionView>
    decreases rs.len(),
{
    if rs.len() == 0 {
        seq![]
    } else {
        let rest = image_regions(rs.drop_last());
        if rs.last().is_image {
            rest.push(rs.last())
        } else {
            rest
        }
    }
}

/// A run in the code font.
pub open spec fn mono_run(start: int, end: int, color: ThemeColor) -> RunView {
    RunView { mono: true, ..plain_run(start, end, color) }
}

/// The first byte from `i` on that is a backtick or a tilde; the length where none is.
pub open spec fn fence_start(text: Seq<u8>, i: int) -> int
    decreases text.len() - i,
{
    if i < 0 || i >= text.len() {
        text.len() as int
    } else if text[i] == 0x60 || text[i] == 0x7e {
        i
    } else {
        fence_start(text, i + 1)
    }
}

/// Where the bytes from `i` on stop to be the byte at `at`.
pub open spec fn same_until(text: Seq<u8>, at: int, i: int) -> int
    decreases text.len() - i,
{
    if i < 0 || i >= text.len() || text[i] != text[at] {
        i
    } else {
        same_until(text, at, i + 1)
    }
}

/// A sorted list with `x` put behind everything that is no larger.
pub open spec fn insert_int(sorted: Seq<int>, x: int) -> Seq<int>
    decreases sorted.len(),
{
    if sorted.len() == 0 || sorted.last() <= x {
        sorted.push(x)
    } else {
        insert_int(sorted.drop_last(), x).push(sorted.last())
    }
}

/// `sorted` with `x` put behind every box that stands no further right.
pub open spec fn insert_box(sorted: Seq<BoxView>, x: BoxView) -> Seq<BoxView>
    decreases sorted.len(),
{
    if sorted.len() == 0 || sorted.last().at <= x.at {
        sorted.push(x)
    } else {
        insert_box(sorted.drop_last(), x).push(sorted.last())
    }
}

/// The boxes from left to right; those at one offset keep their order.
pub open spec fn sorted_boxes(bs: Seq<BoxView>) -> Seq<BoxView>
    decreases bs.len(),
{
    if bs.len() == 0 {
        seq![]
    } else {
        insert_box(sorted_boxes(bs.drop_last()), bs.last())
    }
}

// ---------------------------------------------------------------------------
// Styling
// ---------------------------------------------------------------------------

fn has_checkbox(markers: &Vec<Marker>) -> (r: bool)
    ensures
        r == any_checkbox(markers@.map_values(|m: Marker| m@)),
{
    let ghost ms = markers@.map_values(|m: Marker| m@);
    let mut i: usize = 0;
    while i < markers.len()
        invariant
            i <= markers@.len(),
            ms == markers@.map_values(|m: Marker| m@),
            forall|k: int| 0 <= k < i ==> !((#[trigger] ms[k]).kind is Checkbox),
        decreases markers@.len() - i,
    {
        assert(ms[i as int] == markers@[i as int]@);
        if markers[i].kind.is_checkbox() {
            return true;
        }
        i += 1;
    }
    false
}

fn append_regions(out: &mut Vec<StyledRegion>, regions: &[StyledRegion])
    ensures
        regions_view(final(out)@) == regions_view(old(out)@) + regions_view(regions@),
{
    let ghost before = regions_view(out@);
    let ghost more = regions_view(regions@);
    let mut i: usize = 0;
    assert(before + more.subrange(0, 0) =~= before);
    while i < regions.len()
        invariant
            i <= regions@.len(),
            more == regions_view(regions@),
            regions_view(out@) == before + more.subrange(0, i as int),
        decreases regions@.len() - i,
    {
        push_region(out, regions[i].clone());
        assert((before + more.subrange(0, i as int)).push(regions@[i as int]@) =~= before
            + more.subrange(0, i + 1));
        i += 1;
    }
    assert(more.subrange(0, i as int) =~= more);
}

/// The regions of a line with its checkboxes and the extra ones.
fn merge_regions(
    markers: &Vec<Marker>,
    styles: &[StyledRegion],
    extra: &[StyledRegion],
) -> (r: Vec<StyledRegion>)
    requires
        forall|i: int|
            0 <= i < markers@.len() && (#[trigger] markers@[i]).kind is Checkbox
                ==> markers@[i].range.start + 3 <= usize::MAX,
    ensures
        regions_view(r@) == merged_regions(
            markers@.map_values(|m: Marker| m@),
            regions_view(styles@),
            regions_view(extra@),
        ),
{
    let ghost ms = markers@.map_values(|m: Marker| m@);
    let ghost base = regions_view(styles@);
    let mut out: Vec<StyledRegion> = Vec::new();
    assert(regions_view(out@) =~= Seq::<RegionView>::empty());
    if !has_checkbox(markers) && extra.len() == 0 {
        append_regions(&mut out, styles);
        assert(Seq::<RegionView>::empty() + base =~= base);
        return out;
    }
    let mut i: usize = 0;
    assert(base.subrange(0, 0) =~= Seq::<RegionView>::empty());
    while i < styles.len()
        invariant
            i <= styles@.len(),
            base == regions_view(styles@),
            regions_view(out@) == sorted_regions(base.subrange(0, i as int)),
        decreases styles@.len() - i,
    {
        proof {
            let upto = base.subrange(0, i + 1);
            assert(upto.drop_last() =~= base.subrange(0, i as int));
            assert(upto.last() == styles@[i as int]@);
        }
        insert_sorted(&mut out, styles[i].clone());
        i += 1;
    }
    let mut j: usize = 0;
    assert(base.subrange(0, i as int) =~= base);
    assert(ms.subrange(0, 0) =~= Seq::<MarkerView>::empty());
    assert(base + Seq::<RegionView>::empty() =~= base);
    while j < markers.len()
        invariant
            j <= markers@.len(),
            ms == markers@.map_values(|m: Marker| m@),
            forall|i: int|
                0 <= i < markers@.len() && (#[trigger] markers@[i]).kind is Checkbox
                    ==> markers@[i].range.start + 3 <= usize::MAX,
            regions_view(out@) == sorted_regions(
                base + checkbox_regions(ms.subrange(0, j as int)),
            ),
        decreases markers@.len() - j,
    {
        let marker = &markers[j];
        proof {
            let upto = ms.subrange(0, j + 1);
            assert(upto.drop_last() =~= ms.subrange(0, j as int));
            assert(upto.last() == marker@);
        }
        if let MarkerKind::Checkbox { checked } = &marker.kind {
            // The checkbox marker range is "[ ] " (4 bytes); style only "[ ]" (3).
            let start = marker.range.start;
            let region = StyledRegion {
                full_range: start..start + 3,
                content_range: start..start + 3,
                checkbox: Some(*checked),
                ..StyledRegion::default()
            };
            proof {
                let before = checkbox_regions(ms.subrange(0, j as int));
                assert((base + before.push(region@)).drop_last() =~= base + before);
                assert((base + before.push(region@)).last() == region@);
            }
            insert_sorted(&mut out, region);
        }
        j += 1;
    }
    assert(ms.subrange(0, j as int) =~= ms);
    append_regions(&mut out, extra);
    out
}

spec fn specials_view(sp: Seq<Special>) -> Seq<SpecialView> {
    sp.map_values(|s: Special| s@)
}

fn push_special(out: &mut Vec<Special>, s: Special)
    ensures
        specials_view(final(out)@) == specials_view(old(out)@).push(s@),
{
    let ghost before = out@;
    out.push(s);
    assert(specials_view(out@) =~= specials_view(before).push(s@));
}

fn push_run(out: &mut Vec<StyleRun>, run: StyleRun)
    ensures
        runs_view(final(out)@) == runs_view(old(out)@).push(run@),
        final(out)@ == old(out)@.push(run),
{
    let ghost before = out@;
    out.push(run);
    assert(runs_view(out@) =~= runs_view(before).push(run@));
}

impl<'a> LineInput<'a> {
    fn in_code(&self) -> (r: bool)
        ensures
            r == self.view().in_code(),
    {
        self.markers.in_code_block || self.markers.is_fence()
    }

    fn on_line(&self) -> (r: bool)
        ensures
            r == self.view().on_line(),
    {
        cursor_in(&self.markers.range, self.cursor)
    }

    fn heading_level(&self) -> (r: u8)
        ensures
            r == self.view().heading_level(),
    {
        match self.markers.heading_level() {
            Some(level) => level,
            None => 0,
        }
    }

    fn is_hr(&self) -> (r: bool)
        ensures
            r == self.view().is_hr(),
    {
        self.markers.is_thematic_break() && !self.on_line() && !self.in_code()
    }

    /// The image is drawn rather than shown as text, where the cursor is elsewhere.
    fn is_box(&self, r: &StyledRegion) -> (b: bool)
        requires
            self.wf(),
        ensures
            b == self.view().is_box(r@),
    {
        r.is_image && r.content_range.start >= self.start && r.content_range.end <= self.end
            && r.link_url.is_some()
    }

    /// The alt text of an image.
    fn alt(&self, r: &StyledRegion) -> (alt: String)
        requires
            self.wf(),
            is_slice(
                encode_utf8(self.text@),
                r@.content.0 - self.start,
                r@.content.1 - self.start,
            ),
        ensures
            alt@ == self.view().alt(r@),
    {
        slice(
            self.text.as_str(),
            r.content_range.start - self.start,
            r.content_range.end - self.start,
        ).to_owned()
    }

    /// The image that the line is.
    fn standalone(&self) -> (r: Option<ImageRef>)
        requires
            self.wf(),
            self.view().cuts(),
        ensures
            image_if_any(r) == self.view().standalone(),
    {
        let ghost v = self.view();
        let ghost rs = v.regions;
        let rest = trim_start(self.text.as_str());
        let kept = trim_end(self.text.as_str());
        let ts = self.start + (byte_len(self.text.as_str()) - byte_len(rest.as_str()));
        let te = self.start + byte_len(kept.as_str());
        proof {
            encode_utf8_decode_utf8(self.text@);
            assert(ts == v.trimmed_start());
            assert(te == v.trimmed_end());
        }
        if self.in_code() || self.on_line() || ts >= te {
            return None;
        }
        let mut count: usize = 0;
        let mut first: usize = 0;
        let mut i: usize = 0;
        assert(rs.subrange(0, 0) =~= Seq::<RegionView>::empty());
        while i < self.regions.len()
            invariant
                i <= self.regions@.len(),
                rs == regions_view(self.regions@),
                count <= i,
                image_regions(rs.subrange(0, i as int)).len() == count,
                count > 0 ==> first < i && image_regions(rs.subrange(0, i as int))[0]
                    == rs[first as int],
            decreases self.regions@.len() - i,
        {
            proof {
                let upto = rs.subrange(0, i + 1);
                assert(upto.drop_last() =~= rs.subrange(0, i as int));
                assert(upto.last() == self.regions@[i as int]@);
            }
            if self.regions[i].is_image {
                if count == 0 {
                    first = i;
                }
                count += 1;
            }
            i += 1;
        }
        assert(rs.subrange(0, i as int) =~= rs);
        if count != 1 {
            return None;
        }
        let r = &self.regions[first];
        assert(rs[first as int] == r@);
        if r.full_range.start != ts || r.full_range.end != te || !self.is_box(r) {
            return None;
        }
        assert(!cursor_inside(v.regions[first as int].full, v.cursor));
        match &r.link_url {
            Some(url) => Some(ImageRef { url: url.clone(), alt: self.alt(r) }),
            None => None,
        }
    }

    /// What is hidden as a whole.
    fn push_whole_specials(&self, standalone: bool, out: &mut Vec<Special>)
        requires
            self.wf(),
            standalone == (self.view().standalone() is Some),
        ensures
            specials_view(final(out)@) == specials_view(old(out)@) + self.view().whole_specials(),
    {
        let ghost v = self.view();
        let ghost base = specials_view(out@);
        // Heading `# ` prefix hides when the cursor is elsewhere.
        if self.heading_level() > 0 && !self.on_line() {
            if let Some(mr) = self.markers.marker_range() {
                if mr.end <= self.end {
                    push_special(out, Special::Hidden(mr));
                }
            }
        }
        // Thematic break: hide the `---` text; the draw path paints a horizontal rule.
        if self.is_hr() && self.end > self.start {
            push_special(out, Special::Hidden(self.start..self.end));
        }
        // Standalone image: hide the whole `![alt](url)` line; the draw path paints the
        // image block.
        if standalone && self.end > self.start {
            push_special(out, Special::Hidden(self.start..self.end));
        }
        assert(specials_view(out@) =~= base + v.whole_specials());
    }

    /// What the markers are shown as.
    fn push_marker_specials(&self, out: &mut Vec<Special>)
        requires
            self.wf(),
        ensures
            specials_view(final(out)@) == specials_view(old(out)@) + self.view().marker_specials(
                self.markers@.markers.len() as int,
            ),
    {
        let ghost v = self.view();
        let ghost base = specials_view(out@);
        // On a task item the checkbox is the marker, so suppress the list bullet.
        let task = has_checkbox(&self.markers.markers);
        let mut i: usize = 0;
        assert(base + v.marker_specials(0) =~= base);
        while i < self.markers.markers.len()
            invariant
                self.wf(),
                v == self.view(),
                task == any_checkbox(v.markers.markers),
                i <= self.markers.markers@.len(),
                specials_view(out@) == base + v.marker_specials(i as int),
            decreases self.markers.markers@.len() - i,
        {
            let marker = &self.markers.markers[i];
            assert(v.markers.markers[i as int] == marker@);
            let sub: Option<&'static str> = match &marker.kind {
                MarkerKind::ListItem { ordered, unordered_marker, .. } => if *ordered {
                    None
                } else if task {
                    Some("")
                } else {
                    match unordered_marker {
                        Some(m) => Some(m.bullet()),
                        None => Some("• "),
                    }
                },
                MarkerKind::BlockQuote => Some("  "),
                _ => None,
            };
            if let Some(display) = sub {
                if marker.range.start >= self.start && marker.range.end <= self.end {
                    push_special(
                        out,
                        Special::Collapsed {
                            buffer: marker.range.start..marker.range.end,
                            display: display.to_owned(),
                        },
                    );
                }
            }
            assert(specials_view(out@) =~= base + v.marker_specials(i + 1));
            i += 1;
        }
    }

    /// What is hidden or replaced of the regions, and the images drawn as boxes, at
    /// their buffer offsets.
    fn push_region_specials(&self, out: &mut Vec<Special>) -> (boxes: Vec<InlineImageRef>)
        requires
            self.wf(),
            self.view().cuts(),
            !self.view().in_code(),
        ensures
            specials_view(final(out)@) == specials_view(old(out)@) + self.view().regions_specials(
                self.regions@.len() as int,
            ),
            boxes_view(boxes@) == self.view().boxes(self.regions@.len() as int),
    {
        let ghost v = self.view();
        let ghost base = specials_view(out@);
        let mut boxes: Vec<InlineImageRef> = Vec::new();
        let mut i: usize = 0;
        assert(base + v.regions_specials(0) =~= base);
        assert(boxes_view(boxes@) =~= Seq::<BoxView>::empty());
        while i < self.regions.len()
            invariant
                self.wf(),
                v == self.view(),
                v.cuts(),
                !v.in_code(),
                i <= self.regions@.len(),
                specials_view(out@) == base + v.regions_specials(i as int),
                boxes_view(boxes@) == v.boxes(i as int),
            decreases self.regions@.len() - i,
        {
            let region = &self.regions[i];
            assert(v.regions[i as int] == region@);
            // A region that the cursor is in is revealed (markers included) for editing.
            // Reveal is per-image, not per-line, so editing one badge in a row leaves the
            // others rendered.
            if !cursor_in(&region.full_range, self.cursor) {
                if self.is_box(region) {
                    push_special(
                        out,
                        Special::Hidden(region.full_range.start..region.full_range.end),
                    );
                    if let Some(url) = &region.link_url {
                        let ghost before = boxes@;
                        let b = InlineImageRef {
                            url: url.clone(),
                            alt: self.alt(region),
                            display_offset: region.full_range.start,
                        };
                        boxes.push(b);
                        assert(boxes_view(boxes@) =~= boxes_view(before).push(b@));
                    }
                } else if let Some(text) = &region.display_text {
                    push_special(
                        out,
                        Special::Collapsed {
                            buffer: region.full_range.start..region.full_range.end,
                            display: text.clone(),
                        },
                    );
                } else {
                    // Hide the opening and closing delimiters (e.g. `**` … `**`).
                    if region.content_range.start > region.full_range.start {
                        push_special(
                            out,
                            Special::Hidden(region.full_range.start..region.content_range.start),
                        );
                    }
                    if region.full_range.end > region.content_range.end {
                        push_special(
                            out,
                            Special::Hidden(region.content_range.end..region.full_range.end),
                        );
                    }
                }
            }
            assert(specials_view(out@) =~= base + v.regions_specials(i + 1));
            i += 1;
        }
        boxes
    }
}

/// Puts a number behind those that are no larger.
fn insert_sorted_int(v: &mut Vec<usize>, x: usize)
    ensures
        ints_of(final(v)@) == insert_int(ints_of(old(v)@), x as int),
{
    let ghost before = ints_of(v@);
    let mut at = v.len();
    assert(before.subrange(0, at as int) =~= before);
    assert(insert_int(before, x as int) + before.subrange(at as int, before.len() as int)
        =~= insert_int(before, x as int));
    while at > 0 && v[at - 1] > x
        invariant
            at <= v@.len(),
            v@ == old(v)@,
            before == ints_of(v@),
            insert_int(before, x as int) == insert_int(before.subrange(0, at as int), x as int)
                + before.subrange(at as int, before.len() as int),
        decreases at,
    {
        proof {
            let head = before.subrange(0, at as int);
            assert(head.last() == v@[at - 1]);
            assert(head.drop_last() =~= before.subrange(0, at - 1));
            assert(insert_int(head, x as int) + before.subrange(at as int, before.len() as int)
                =~= insert_int(head.drop_last(), x as int) + before.subrange(
                at - 1,
                before.len() as int,
            ));
        }
        at -= 1;
    }
    proof {
        let head = before.subrange(0, at as int);
        if at > 0 {
            assert(head.last() == v@[at - 1]);
        }
        assert(insert_int(head, x as int) == head.push(x as int));
    }
    v.insert(at, x);
    assert(ints_of(v@) =~= before.subrange(0, at as int).push(x as int) + before.subrange(
        at as int,
        before.len() as int,
    ));
}

/// Puts a box behind those that stand no further right.
fn insert_sorted_box(v: &mut Vec<InlineImageRef>, x: InlineImageRef)
    ensures
        boxes_view(final(v)@) == insert_box(boxes_view(old(v)@), x@),
{
    let ghost before = boxes_view(v@);
    let mut at = v.len();
    assert(before.subrange(0, at as int) =~= before);
    assert(insert_box(before, x@) + before.subrange(at as int, before.len() as int)
        =~= insert_box(before, x@));
    while at > 0 && v[at - 1].display_offset > x.display_offset
        invariant
            at <= v@.len(),
            v@ == old(v)@,
            before == boxes_view(v@),
            insert_box(before, x@) == insert_box(before.subrange(0, at as int), x@)
                + before.subrange(at as int, before.len() as int),
        decreases at,
    {
        proof {
            let head = before.subrange(0, at as int);
            assert(head.last() == v@[at - 1]@);
            assert(head.drop_last() =~= before.subrange(0, at - 1));
            assert(insert_box(head, x@) + before.subrange(at as int, before.len() as int)
                =~= insert_box(head.drop_last(), x@) + before.subrange(
                at - 1,
                before.len() as int,
            ));
        }
        at -= 1;
    }
    proof {
        let head = before.subrange(0, at as int);
        if at > 0 {
            assert(head.last() == v@[at - 1]@);
        }
        assert(insert_box(head, x@) == head.push(x@));
    }
    v.insert(at, x);
    assert(boxes_view(v@) =~= before.subrange(0, at as int).push(x@) + before.subrange(
        at as int,
        before.len() as int,
    ));
}

/// Resolve each collapsed inline image to its zero-width display point, ordered
/// left-to-right.
fn place_boxes(boxes: &Vec<InlineImageRef>, map: &SegmentMap) -> (r: Vec<InlineImageRef>)
    ensures
        boxes_view(r@) == sorted_boxes(
            boxes_view(boxes@).map_values(
                |b: BoxView| BoxView { at: map@.to_display(b.at), ..b },
            ),
        ),
{
    let ghost placed = boxes_view(boxes@).map_values(
        |b: BoxView| BoxView { at: map@.to_display(b.at), ..b },
    );
    let mut out: Vec<InlineImageRef> = Vec::new();
    let mut i: usize = 0;
    assert(boxes_view(out@) =~= Seq::<BoxView>::empty());
    assert(placed.subrange(0, 0) =~= Seq::<BoxView>::empty());
    while i < boxes.len()
        invariant
            i <= boxes@.len(),
            placed == boxes_view(boxes@).map_values(
                |b: BoxView| BoxView { at: map@.to_display(b.at), ..b },
            ),
            boxes_view(out@) == sorted_boxes(placed.subrange(0, i as int)),
        decreases boxes@.len() - i,
    {
        let b = InlineImageRef {
            url: boxes[i].url.clone(),
            alt: boxes[i].alt.clone(),
            display_offset: map.buffer_to_display(boxes[i].display_offset),
        };
        proof {
            let upto = placed.subrange(0, i + 1);
            assert(upto.drop_last() =~= placed.subrange(0, i as int));
            assert(boxes_view(boxes@)[i as int] == boxes@[i as int]@);
            assert(upto.last() == b@);
        }
        insert_sorted_box(&mut out, b);
        i += 1;
    }
    assert(placed.subrange(0, i as int) =~= placed);
    out
}

/// Every run covers some of the text and nothing beyond it.
pub open spec fn runs_inside(runs: Seq<StyleRun>, len: int) -> bool {
    forall|i: int|
        0 <= i < runs.len() ==> (#[trigger] runs[i]).range.start < runs[i].range.end <= len
}

impl<'a> LineInput<'a> {
    /// Display offsets of each blockquote marker (outermost first).
    fn quote_bars(&self, map: &SegmentMap) -> (r: Vec<usize>)
        requires
            map@ == self.view().map(),
        ensures
            ints_of(r@) == self.view().bars(self.markers@.markers.len() as int),
    {
        let ghost v = self.view();
        let mut bars: Vec<usize> = Vec::new();
        let mut i: usize = 0;
        assert(ints_of(bars@) =~= Seq::<int>::empty());
        while i < self.markers.markers.len()
            invariant
                v == self.view(),
                map@ == v.map(),
                i <= self.markers.markers@.len(),
                ints_of(bars@) == v.bars(i as int),
            decreases self.markers.markers@.len() - i,
        {
            let m = &self.markers.markers[i];
            assert(v.markers.markers[i as int] == m@);
            if matches!(m.kind, MarkerKind::BlockQuote) {
                insert_sorted_int(&mut bars, map.buffer_to_display(m.range.start));
            }
            i += 1;
        }
        bars
    }

    /// The runs of a line of code.
    fn code_runs(&self, text: &str, map: &SegmentMap) -> (runs: Vec<StyleRun>)
        requires
            map@ == self.view().map(),
            text.spec_bytes() == self.view().display(),
        ensures
            runs_view(runs@) == self.view().code_runs(),
            runs_inside(runs@, text.spec_bytes().len() as int),
    {
        let ghost v = self.view();
        let bytes = text.as_bytes();
        let len = bytes.len();
        let mut runs: Vec<StyleRun> = Vec::new();
        assert(runs_view(runs@) =~= Seq::<RunView>::empty());
        // Monospace everywhere, captures on top.
        if len > 0 {
            let mut base = StyleRun::new(0..len, ThemeColor::Foreground);
            base.mono = true;
            push_run(&mut runs, base);
        }
        let ghost base = runs_view(runs@);
        if self.markers.is_fence() {
            // Fence line: the ```/~~~ delimiter reads as comment, the language/info
            // string as green. Overlays the base run.
            let mut at: usize = 0;
            while at < len && bytes[at] != 0x60 && bytes[at] != 0x7e
                invariant
                    len == bytes@.len(),
                    at <= len,
                    fence_start(bytes@, 0) == fence_start(bytes@, at as int),
                decreases len - at,
            {
                at += 1;
            }
            if at < len {
                let mut end: usize = at;
                while end < len && bytes[end] == bytes[at]
                    invariant
                        len == bytes@.len(),
                        at <= end <= len,
                        at < len,
                        same_until(bytes@, at as int, at as int) == same_until(
                            bytes@,
                            at as int,
                            end as int,
                        ),
                        end == at ==> bytes@[end as int] == bytes@[at as int],
                    decreases len - end,
                {
                    end += 1;
                }
                let mut delim = StyleRun::new(at..end, ThemeColor::Comment);
                delim.mono = true;
                push_run(&mut runs, delim);
                if end < len {
                    let mut lang = StyleRun::new(end..len, ThemeColor::Green);
                    lang.mono = true;
                    push_run(&mut runs, lang);
                }
            }
        }
        let ghost before = runs_view(runs@);
        let mut i: usize = 0;
        assert(before + v.capture_runs(0) =~= before);
        while i < self.highlights.len()
            invariant
                v == self.view(),
                map@ == v.map(),
                len == v.display().len(),
                i <= self.highlights@.len(),
                runs_view(runs@) == before + v.capture_runs(i as int),
                runs_inside(runs@, len as int),
            decreases self.highlights@.len() - i,
        {
            let h = &self.highlights[i];
            let r = map.buffer_range_to_display(h.range.start..h.range.end);
            if r.start < r.end {
                let mut run = StyleRun::new(r, ThemeColor::Highlight(h.highlight_id));
                run.mono = true;
                push_run(&mut runs, run);
            }
            assert(runs_view(runs@) =~= before + v.capture_runs(i + 1));
            i += 1;
        }
        assert(runs_view(runs@) =~= v.code_runs());
        runs
    }

    /// The runs of a line of text, and the display ranges of its inline code.
    fn text_runs(&self, text: &str, map: &SegmentMap) -> (r: (Vec<StyleRun>, Vec<Range<usize>>))
        requires
            map@ == self.view().map(),
            text.spec_bytes() == self.view().display(),
        ensures
            runs_view(r.0@) == self.view().text_runs(),
            runs_inside(r.0@, text.spec_bytes().len() as int),
            pairs_of(r.1@) == self.view().chips(self.regions@.len() as int),
    {
        let ghost v = self.view();
        let len = byte_len(text);
        let heading_level = self.heading_level();
        let mut runs: Vec<StyleRun> = Vec::new();
        let mut chips: Vec<Range<usize>> = Vec::new();
        assert(runs_view(runs@) =~= Seq::<RunView>::empty());
        assert(pairs_of(chips@) =~= Seq::<(int, int)>::empty());
        // A completed task's content reads as "done": dimmed (its checkbox stays green).
        // A base run under everything catches plain text between styled spans.
        let dim = match self.markers.checkbox() {
            Some(checked) => checked,
            None => false,
        };
        let content_color = if dim {
            ThemeColor::Comment
        } else {
            ThemeColor::Foreground
        };
        if dim && len > 0 {
            push_run(&mut runs, StyleRun::new(0..len, content_color));
        }
        if heading_level > 0 && len > 0 {
            let mut h = StyleRun::new(0..len, ThemeColor::Purple);
            h.bold = true;
            push_run(&mut runs, h);
        }
        let ghost before = runs_view(runs@);
        let mut i: usize = 0;
        assert(before + v.region_runs(0) =~= before);
        while i < self.regions.len()
            invariant
                v == self.view(),
                map@ == v.map(),
                len == v.display().len(),
                heading_level == v.heading_level(),
                content_color == v.content_color(),
                i <= self.regions@.len(),
                runs_view(runs@) == before + v.region_runs(i as int),
                runs_inside(runs@, len as int),
                pairs_of(chips@) == v.chips(i as int),
            decreases self.regions@.len() - i,
        {
            let region = &self.regions[i];
            assert(v.regions[i as int] == region@);
            // Style the visible content; when revealed, style the whole region.
            let style_range = if cursor_in(&region.full_range, self.cursor) {
                region.full_range.start..region.full_range.end
            } else {
                region.content_range.start..region.content_range.end
            };
            let r = map.buffer_range_to_display(style_range);
            if r.start < r.end {
                let is_link = region.link_url.is_some();
                let color = match region.checkbox {
                    // A checked box reads as "done" (green); an empty box is muted.
                    Some(checked) => if checked {
                        ThemeColor::Green
                    } else {
                        ThemeColor::Comment
                    },
                    None => if is_link {
                        ThemeColor::Cyan
                    } else if region.style.code {
                        ThemeColor::Green
                    } else {
                        content_color
                    },
                };
                // Inline code (not a link/checkbox) gets a background chip behind its span.
                if region.style.code && region.checkbox.is_none() && !is_link {
                    let ghost old_chips = chips@;
                    chips.push(r.start..r.end);
                    assert(pairs_of(chips@) =~= pairs_of(old_chips).push(
                        (r.start as int, r.end as int),
                    ));
                }
                let checked = match region.checkbox {
                    Some(checked) => checked,
                    None => false,
                };
                let mut run = StyleRun::new(r, color);
                run.bold = region.style.bold || heading_level > 0 || checked;
                run.italic = region.style.italic;
                run.mono = region.style.code;
                run.strikethrough = region.style.strikethrough;
                run.underline = is_link;
                push_run(&mut runs, run);
            }
            assert(runs_view(runs@) =~= before + v.region_runs(i + 1));
            i += 1;
        }
        assert(runs_view(runs@) =~= v.text_runs());
        (runs, chips)
    }

    /// The styled line.
    fn render(&self) -> (r: LineRender)
        requires
            self.wf(),
            self.view().cuts(),
        ensures
            r@ == self.view().rendered(),
            r.map@.wf(),
            runs_inside(r.runs@, encode_utf8(r.text@).len() as int),
    {
        let ghost v = self.view();
        let in_code = self.in_code();
        let image = self.standalone();
        let mut specials: Vec<Special> = Vec::new();
        let mut boxes: Vec<InlineImageRef> = Vec::new();
        assert(specials_view(specials@) =~= Seq::<SpecialView>::empty());
        assert(boxes_view(boxes@) =~= Seq::<BoxView>::empty());
        // Code blocks show their markers verbatim.
        if !in_code {
            self.push_whole_specials(image.is_some(), &mut specials);
            self.push_marker_specials(&mut specials);
            // A standalone image hides the whole line.
            if image.is_none() {
                boxes = self.push_region_specials(&mut specials);
            }
        }
        assert(specials_view(specials@) =~= v.specials());
        assert(boxes_view(boxes@) == v.boxes(v.used_regions()));
        let (text, map) = SegmentMap::build(self.text.as_str(), self.start, &specials);
        let inline_images = place_boxes(&boxes, &map);
        let mut quote_bar_bytes: Vec<usize> = Vec::new();
        let mut code_ranges: Vec<Range<usize>> = Vec::new();
        let mut runs: Vec<StyleRun> = Vec::new();
        assert(ints_of(quote_bar_bytes@) =~= Seq::<int>::empty());
        assert(pairs_of(code_ranges@) =~= Seq::<(int, int)>::empty());
        if in_code {
            runs = self.code_runs(text.as_str(), &map);
        } else {
            quote_bar_bytes = self.quote_bars(&map);
            let (text_runs, chips) = self.text_runs(text.as_str(), &map);
            runs = text_runs;
            code_ranges = chips;
        }
        let content_start = map.buffer_to_display(self.markers.content_start());
        LineRender {
            text,
            font_scale: heading_scale(self.heading_level()),
            runs,
            map,
            content_start,
            quote_bar_bytes,
            is_hr: self.is_hr(),
            code_ranges,
            image,
            inline_images,
        }
    }
}

/// Build the display text (markdown markers hidden when the cursor is off the
/// region), a segment map back to buffer bytes, and style runs over the display,
/// for `line_idx`. `cursor_offset` is the absolute buffer cursor position; markers
/// on the cursor's own region/line stay revealed for editing.
///
/// `extra_regions` are additional inline styled regions to merge in (validated
/// GitHub refs → cyan/underline links, and naked-URL shortening via `display_text`).
/// They carry absolute buffer ranges, like the document's own inline styles.
/// `line_styles` are this line's tree inline styles, without checkbox regions: those
/// come from the line's markers.
pub fn build_line_render(
    snapshot: &RenderSnapshot,
    line_idx: usize,
    cursor_offset: usize,
    line_styles: &[StyledRegion],
    extra_regions: &[StyledRegion],
) -> (r: LineRender)
    requires
        line_idx < snapshot.lines@.len(),
        is_slice(
            rope_bytes(snapshot.rope),
            snapshot.lines@[line_idx as int].markers@.start,
            snapshot.lines@[line_idx as int].markers@.end,
        ),
        forall|i: int|
            0 <= i < snapshot.lines@[line_idx as int].markers.markers@.len() && (
            #[trigger] snapshot.lines@[line_idx as int].markers.markers@[i]).kind is Checkbox
                ==> snapshot.lines@[line_idx as int].markers.markers@[i].range.start + 3
                <= usize::MAX,
        line_view(
            rope_bytes(snapshot.rope),
            snapshot.lines@[line_idx as int],
            cursor_offset as int,
            regions_view(line_styles@),
            regions_view(extra_regions@),
        ).cuts(),
    ensures
        r@ == line_view(
            rope_bytes(snapshot.rope),
            snapshot.lines@[line_idx as int],
            cursor_offset as int,
            regions_view(line_styles@),
            regions_view(extra_regions@),
        ).rendered(),
        r.map@.wf(),
        runs_inside(r.runs@, encode_utf8(r.text@).len() as int),
{
    let ghost bytes = rope_bytes(snapshot.rope);
    let markers = snapshot.line_markers(line_idx);
    let start = markers.range.start;
    // The line without its trailing line break.
    let mut end = markers.range.end;
    if end > start && rope_byte(&snapshot.rope, end - 1) == Some(0x0au8) {
        end = end - 1;
        proof {
            encode_utf8_valid_utf8(rope_text(snapshot.rope));
            lemma_ascii_boundary(bytes, end as int);
        }
    }
    let text = rope_slice(&snapshot.rope, start, end);
    let line = LineInput {
        text,
        start,
        end,
        markers,
        highlights: snapshot.code_highlights_for_line(line_idx),
        regions: merge_regions(&markers.markers, line_styles, extra_regions),
        cursor: cursor_offset,
    };
    assert(line.view() == line_view(
        bytes,
        snapshot.lines@[line_idx as int],
        cursor_offset as int,
        regions_view(line_styles@),
        regions_view(extra_regions@),
    ));
    line.render()
}

// ---------------------------------------------------------------------------
// Laws
// ---------------------------------------------------------------------------

impl LineView {
    /// The offset is between two characters, if it is in the line.
    pub open spec fn at_char(self, p: int) -> bool {
        self.start <= p <= self.end() ==> is_char_boundary(self.bytes, p - self.start)
    }

    /// A region starts and ends between characters, and so does its content.
    pub open spec fn region_at_chars(self, r: RegionView) -> bool {
        &&& self.at_char(r.full.0)
        &&& self.at_char(r.full.1)
        &&& self.at_char(r.content.0)
        &&& self.at_char(r.content.1)
        &&& r.content.0 <= r.content.1
    }

    /// What is hidden or replaced in the line starts and ends between characters.
    spec fn all_at_chars(self, sp: Seq<SpecialView>) -> bool {
        forall|i: int|
            0 <= i < sp.len() && in_line(#[trigger] sp[i], self.start, self.end()) ==> at_chars(
                sp[i],
                self.bytes,
                self.start,
            )
    }
}

/// A line can be styled whenever its markers and regions start and end between characters.
pub proof fn law_char_bounds_cut(v: LineView)
    requires
        valid_utf8(v.bytes),
        forall|i: int|
            0 <= i < v.regions.len() ==> v.region_at_chars(#[trigger] v.regions[i]),
        forall|i: int|
            0 <= i < v.markers.markers.len() ==> v.at_char(
                (#[trigger] v.markers.markers[i]).start,
            ) && v.at_char(v.markers.markers[i].end),
    ensures
        v.cuts(),
{
    is_char_boundary_start_end_of_seq(v.bytes);
    if !v.in_code() {
        let ms = v.markers.markers;
        let whole = v.whole_specials();
        let marks = v.marker_specials(ms.len() as int);
        let used = v.regions_specials(v.used_regions());
        assert(v.all_at_chars(whole)) by {
            law_span_combines(ms, MarkerClass::Spacer);
        }
        lemma_marker_specials_at_chars(v, ms.len() as int);
        lemma_regions_specials_at_chars(v, v.used_regions());
        assert forall|i: int|
            0 <= i < v.specials().len() && in_line(
                #[trigger] v.specials()[i],
                v.start,
                v.end(),
            ) implies at_chars(v.specials()[i], v.bytes, v.start) by {
            if i < whole.len() {
                assert(v.specials()[i] == whole[i]);
            } else if i < whole.len() + marks.len() {
                assert(v.specials()[i] == marks[i - whole.len()]);
            } else {
                assert(v.specials()[i] == used[i - whole.len() - marks.len()]);
            }
        }
    }
    law_char_specials_cut(v.bytes, v.start, v.specials());
}

proof fn lemma_marker_specials_at_chars(v: LineView, k: int)
    requires
        0 <= k <= v.markers.markers.len(),
        forall|i: int|
            0 <= i < v.markers.markers.len() ==> v.at_char(
                (#[trigger] v.markers.markers[i]).start,
            ) && v.at_char(v.markers.markers[i].end),
    ensures
        v.all_at_chars(v.marker_specials(k)),
    decreases k,
{
    if k > 0 {
        lemma_marker_specials_at_chars(v, k - 1);
        let m = v.markers.markers[k - 1];
        assert(v.at_char(m.start) && v.at_char(m.end));
    }
}

proof fn lemma_regions_specials_at_chars(v: LineView, k: int)
    requires
        0 <= k <= v.regions.len(),
        forall|i: int|
            0 <= i < v.regions.len() ==> v.region_at_chars(#[trigger] v.regions[i]),
    ensures
        v.all_at_chars(v.regions_specials(k)),
    decreases k,
{
    if k > 0 {
        lemma_regions_specials_at_chars(v, k - 1);
        let r = v.regions[k - 1];
        assert(v.region_at_chars(r));
        let rest = v.regions_specials(k - 1);
        let own = v.region_specials(r);
        assert forall|i: int|
            0 <= i < v.regions_specials(k).len() && in_line(
                #[trigger] v.regions_specials(k)[i],
                v.start,
                v.end(),
            ) implies at_chars(v.regions_specials(k)[i], v.bytes, v.start) by {
            if i < rest.len() {
                assert(v.regions_specials(k)[i] == rest[i]);
            } else {
                assert(v.regions_specials(k)[i] == own[i - rest.len()]);
            }
        }
    }
}

/// Code shows verbatim.
pub proof fn law_code_is_verbatim(v: LineView)
    requires
        v.in_code(),
        0 <= v.start,
    ensures
        v.display() == v.bytes,
{
    assert(v.specials() =~= Seq::<SpecialView>::empty());
    let b = built_upto(v.bytes, v.start, Seq::<SpecialView>::empty(), 0);
    assert(v.bytes.subrange(0, v.bytes.len() as int) =~= v.bytes);
    assert(v.display() =~= v.bytes);
}

/// A rule and a standalone image hide the text of their line.
pub proof fn law_drawn_lines_show_no_text(v: LineView)
    requires
        v.is_hr() || v.standalone() is Some,
        v.heading_level() == 0,
        0 <= v.start,
    ensures
        v.display() == Seq::<u8>::empty(),
{
    if v.bytes.len() > 0 {
        assert(v.whole_specials()[0] == hidden(v.start, v.end()));
        assert(v.specials()[0] == v.whole_specials()[0]);
    }
    law_whole_line_hidden(v.bytes, v.start, v.specials());
}

/// The line under the cursor is no rule and no image: its text is there to edit.
pub proof fn law_cursor_reveals_line(v: LineView)
    requires
        v.on_line(),
    ensures
        !v.is_hr(),
        v.standalone() is None,
{
}

/// The region under the cursor is shown as it is in the buffer.
pub proof fn law_cursor_reveals_region(v: LineView, r: RegionView)
    requires
        cursor_inside(r.full, v.cursor),
    ensures
        v.region_specials(r) == Seq::<SpecialView>::empty(),
        v.styled(r) == v.on_display(r.full),
{
}

/// Boxes go from left to right.
pub open spec fn boxes_ascend(bs: Seq<BoxView>) -> bool {
    forall|i: int, j: int| 0 <= i <= j < bs.len() ==> (#[trigger] bs[i]).at <= (#[trigger] bs[j]).at
}

spec fn boxes_upto(bs: Seq<BoxView>, b: int) -> bool {
    forall|i: int| 0 <= i < bs.len() ==> (#[trigger] bs[i]).at <= b
}

proof fn lemma_insert_box(sorted: Seq<BoxView>, x: BoxView)
    requires
        boxes_ascend(sorted),
    ensures
        boxes_ascend(insert_box(sorted, x)),
        forall|b: int|
            x.at <= b && boxes_upto(sorted, b) ==> #[trigger] boxes_upto(insert_box(sorted, x), b),
    decreases sorted.len(),
{
    if sorted.len() > 0 && sorted.last().at > x.at {
        let rest = sorted.drop_last();
        assert(boxes_ascend(rest)) by {
            assert forall|i: int, j: int| 0 <= i <= j < rest.len() implies (
            #[trigger] rest[i]).at <= (#[trigger] rest[j]).at by {
                assert(sorted[i].at <= sorted[j].at);
            }
        }
        lemma_insert_box(rest, x);
        let top = sorted.last();
        assert(boxes_upto(rest, top.at)) by {
            assert forall|i: int| 0 <= i < rest.len() implies (#[trigger] rest[i]).at
                <= top.at by {
                assert(sorted[i].at <= sorted[sorted.len() - 1].at);
            }
        }
        assert(boxes_upto(insert_box(rest, x), top.at));
        assert forall|b: int| x.at <= b && boxes_upto(sorted, b) implies #[trigger] boxes_upto(
            insert_box(sorted, x),
            b,
        ) by {
            assert(boxes_upto(rest, b)) by {
                assert forall|i: int| 0 <= i < rest.len() implies (#[trigger] rest[i]).at <= b by {
                    assert(sorted[i].at <= b);
                }
            }
            assert(boxes_upto(insert_box(rest, x), b));
            assert(sorted[sorted.len() - 1].at <= b);
        }
    } else {
        assert forall|i: int, j: int| 0 <= i <= j < sorted.push(x).len() implies (
        #[trigger] sorted.push(x)[i]).at <= (#[trigger] sorted.push(x)[j]).at by {
            if j == sorted.len() && i < j {
                assert(sorted[i].at <= sorted[sorted.len() - 1].at);
            }
        }
    }
}

proof fn lemma_sorted_boxes(bs: Seq<BoxView>)
    ensures
        boxes_ascend(sorted_boxes(bs)),
    decreases bs.len(),
{
    if bs.len() > 0 {
        lemma_sorted_boxes(bs.drop_last());
        lemma_insert_box(sorted_boxes(bs.drop_last()), bs.last());
    }
}

/// The inline images of a line are ordered by their display offsets.
pub proof fn law_inline_images_ascend(v: LineView)
    ensures
        boxes_ascend(v.rendered().inline_images),
{
    lemma_sorted_boxes(v.placed(v.boxes(v.used_regions())));
}

/// A line that an image stands for has no inline images.
pub proof fn law_image_stands_alone(v: LineView)
    requires
        v.rendered().image is Some,
    ensures
        v.rendered().inline_images == Seq::<BoxView>::empty(),
{
    assert(v.placed(v.boxes(0)) =~= Seq::<BoxView>::empty());
}

spec fn ints_ascend(s: Seq<int>) -> bool {
    forall|i: int, j: int| 0 <= i <= j < s.len() ==> (#[trigger] s[i]) <= (#[trigger] s[j])
}

proof fn lemma_insert_int(sorted: Seq<int>, x: int)
    requires
        ints_ascend(sorted),
    ensures
        ints_ascend(insert_int(sorted, x)),
        sorted.len() > 0 ==> insert_int(sorted, x).last() == max2(sorted.last(), x),
        sorted.len() == 0 ==> insert_int(sorted, x).last() == x,
        insert_int(sorted, x).len() == sorted.len() + 1,
    decreases sorted.len(),
{
    if sorted.len() > 0 && sorted.last() > x {
        let init = sorted.drop_last();
        lemma_insert_int(init, x);
        if init.len() > 0 {
            assert(init.last() == sorted[sorted.len() - 2]);
        }
        let r = insert_int(init, x);
        assert forall|i: int, j: int| 0 <= i <= j < r.push(sorted.last()).len() implies (
        #[trigger] r.push(sorted.last())[i]) <= (#[trigger] r.push(sorted.last())[j]) by {
            if i < r.len() {
                assert(r[i] <= r[r.len() - 1]);
            }
        }
    }
}

/// The bars of the quotes go from left to right, outermost first.
pub proof fn law_quote_bars_ascend(v: LineView, i: int, j: int)
    requires
        0 <= i <= j < v.rendered().quote_bars.len(),
    ensures
        v.rendered().quote_bars[i] <= v.rendered().quote_bars[j],
{
    lemma_bars(v, v.markers.markers.len() as int);
}

proof fn lemma_bars(v: LineView, k: int)
    ensures
        ints_ascend(v.bars(k)),
    decreases k,
{
    if k > 0 {
        lemma_bars(v, k - 1);
        lemma_insert_int(v.bars(k - 1), v.map().to_display(v.markers.markers[k - 1].start));
    }
}

// ---------------------------------------------------------------------------
// What a line shows
// ---------------------------------------------------------------------------

/// The cursor is neither in the region nor at one of its ends.
spec fn is_away(r: RegionView, cursor: int) -> bool {
    cursor < r.full.0 || r.full.1 < cursor
}

/// The region lies in the line, and its content in the region.
pub open spec fn lies_in(r: RegionView, start: int, end: int) -> bool {
    start <= r.full.0 <= r.content.0 <= r.content.1 <= r.full.1 <= end
}

proof fn lemma_no_specials(v: LineView)
    requires
        0 <= v.start,
        v.specials() =~= Seq::<SpecialView>::empty(),
    ensures
        v.display() == v.bytes,
        forall|i: int|
            0 <= i <= v.bytes.len() ==> #[trigger] v.map().to_display(v.start + i) == i,
{
    assert forall|i: int| 0 <= i <= v.bytes.len() implies #[trigger] v.map().to_display(
        v.start + i,
    ) == i by {
        law_identity_round_trips(v.bytes, v.start, i);
    }
    law_identity_round_trips(v.bytes, v.start, 0);
}

proof fn lemma_first_kind_none(ms: Seq<MarkerView>, p: spec_fn(MarkerKindView) -> bool)
    requires
        forall|i: int| 0 <= i < ms.len() ==> !p((#[trigger] ms[i]).kind),
    ensures
        first_kind(ms, p) is None,
    decreases ms.len(),
{
    if ms.len() > 0 {
        let rest = ms.drop_first();
        assert(!p(ms[0].kind));
        assert forall|i: int| 0 <= i < rest.len() implies !p((#[trigger] rest[i]).kind) by {
            assert(rest[i] == ms[i + 1]);
        }
        lemma_first_kind_none(rest, p);
    }
}

proof fn lemma_no_images(rs: Seq<RegionView>)
    requires
        forall|i: int| 0 <= i < rs.len() ==> !(#[trigger] rs[i]).is_image,
    ensures
        image_regions(rs) == Seq::<RegionView>::empty(),
    decreases rs.len(),
{
    if rs.len() > 0 {
        let rest = rs.drop_last();
        assert(!rs[rs.len() - 1].is_image);
        assert forall|i: int| 0 <= i < rest.len() implies !(#[trigger] rest[i]).is_image by {
            assert(rest[i] == rs[i]);
        }
        lemma_no_images(rest);
    }
}

/// A line without markers, outside code.
proof fn lemma_bare_line(v: LineView)
    requires
        !v.markers.in_code_block,
        v.markers.markers.len() == 0,
    ensures
        !v.in_code(),
        !v.is_hr(),
        v.heading_level() == 0,
        v.checkbox() is None,
        v.marker_specials(v.markers.markers.len() as int) == Seq::<SpecialView>::empty(),
        v.standalone() is None ==> v.whole_specials() == Seq::<SpecialView>::empty(),
        v.standalone() is None ==> v.specials() == v.regions_specials(v.regions.len() as int),
        span(v.markers.markers, MarkerClass::All) is None,
        v.bars(v.markers.markers.len() as int) == Seq::<int>::empty(),
{
    let ms = v.markers.markers;
    law_span_combines(ms, MarkerClass::Spacer);
    law_span_combines(ms, MarkerClass::All);
    if let Some((s, e)) = span(ms, MarkerClass::Spacer) {
        assert(false);
    }
    if let Some((s, e)) = span(ms, MarkerClass::All) {
        assert(false);
    }
    if v.standalone() is None {
        assert(v.whole_specials() =~= Seq::<SpecialView>::empty());
        assert(v.specials() =~= v.regions_specials(v.regions.len() as int));
    }
}

/// A line of text without markers or styled regions is shown as it is, unstyled and in the
/// size of body text.
pub proof fn law_plain_text_shows_as_it_is(v: LineView)
    requires
        0 <= v.start == v.markers.start,
        !v.markers.in_code_block,
        v.markers.markers.len() == 0,
        v.regions.len() == 0,
    ensures
        v.rendered().text == v.bytes,
        v.rendered().font_scale == 100,
        v.rendered().runs.len() == 0,
        v.rendered().content_start == 0,
        v.rendered().quote_bars.len() == 0,
        !v.rendered().is_hr,
        v.rendered().code_ranges.len() == 0,
        v.rendered().image is None,
        v.rendered().inline_images.len() == 0,
{
    lemma_bare_line(v);
    lemma_no_images(v.regions);
    lemma_no_specials(v);
    assert(v.placed(v.boxes(0)) =~= Seq::<BoxView>::empty());
    assert(v.text_runs() =~= Seq::<RunView>::empty());
}

/// Byte `off` is a delimiter of a region that the cursor is away from: it is in the region,
/// before or behind its content.
pub open spec fn is_delimiter(r: RegionView, cursor: int, off: int) -> bool {
    &&& cursor < r.full.0 || r.full.1 < cursor
    &&& r.full.0 <= off < r.content.0 || r.content.1 <= off < r.full.1
}

/// Byte `off` is a delimiter of one of the regions.
pub open spec fn in_delimiters(rs: Seq<RegionView>, cursor: int, off: int) -> bool {
    exists|i: int| 0 <= i < rs.len() && is_delimiter(#[trigger] rs[i], cursor, off)
}

/// The first `n` bytes of a line without the delimiters.
pub open spec fn without_delimiters(
    bytes: Seq<u8>,
    start: int,
    rs: Seq<RegionView>,
    cursor: int,
    n: int,
) -> Seq<u8>
    decreases n,
{
    if n <= 0 {
        seq![]
    } else {
        let rest = without_delimiters(bytes, start, rs, cursor, n - 1);
        if in_delimiters(rs, cursor, start + n - 1) {
            rest
        } else {
            rest.push(bytes[n - 1])
        }
    }
}

/// The special is a delimiter of region `i`.
spec fn is_delimiter_of(v: LineView, x: SpecialView, i: int) -> bool {
    &&& x.shown is None
    &&& x.start < x.end
    &&& is_away(v.regions[i], v.cursor)
    &&& (x.start == v.regions[i].full.0 && x.end == v.regions[i].content.0) || (x.start
        == v.regions[i].content.1 && x.end == v.regions[i].full.1)
}

spec fn is_some_delimiter(v: LineView, x: SpecialView, k: int) -> bool {
    exists|i: int| 0 <= i < k && #[trigger] is_delimiter_of(v, x, i)
}

spec fn delimits(v: LineView, k: int) -> bool {
    let sp = v.regions_specials(k);
    &&& forall|j: int| 0 <= j < sp.len() ==> is_some_delimiter(v, #[trigger] sp[j], k)
    &&& forall|i: int, off: int|
        0 <= i < k && #[trigger] is_delimiter(v.regions[i], v.cursor, off) ==> exists|j: int|
            0 <= j < sp.len() && in_special(#[trigger] sp[j], off)
}

/// The regions of a line are no images, have no text of their own, and lie in the line.
pub open spec fn plain_regions(v: LineView) -> bool {
    forall|i: int|
        0 <= i < v.regions.len() ==> !(#[trigger] v.regions[i]).is_image
            && v.regions[i].display_text is None && lies_in(
            v.regions[i],
            v.start,
            v.start + v.bytes.len(),
        )
}

/// No byte is a delimiter of two regions.
pub open spec fn delimiters_apart(v: LineView) -> bool {
    forall|i: int, j: int, off: int|
        0 <= i < j < v.regions.len() && #[trigger] is_delimiter(v.regions[i], v.cursor, off)
            ==> !#[trigger] is_delimiter(v.regions[j], v.cursor, off)
}

proof fn lemma_delimits(v: LineView, k: int)
    requires
        0 <= k <= v.regions.len(),
        plain_regions(v),
    ensures
        delimits(v, k),
    decreases k,
{
    if k > 0 {
        lemma_delimits(v, k - 1);
        let r = v.regions[k - 1];
        let old_sp = v.regions_specials(k - 1);
        let own = v.region_specials(r);
        let sp = v.regions_specials(k);
        assert(sp == old_sp + own);
        assert(!r.is_image && r.display_text is None);
        assert forall|j: int| 0 <= j < sp.len() implies is_some_delimiter(v, #[trigger] sp[j], k) by {
            if j < old_sp.len() {
                assert(is_some_delimiter(v, old_sp[j], k - 1));
                let i = choose|i: int| 0 <= i < k - 1 && #[trigger] is_delimiter_of(v, old_sp[j], i);
                assert(is_delimiter_of(v, sp[j], i));
            } else {
                assert(sp[j] == own[j - old_sp.len()]);
                assert(is_delimiter_of(v, sp[j], k - 1));
            }
        }
        assert forall|i: int, off: int|
            0 <= i < k && #[trigger] is_delimiter(v.regions[i], v.cursor, off) implies exists|j: int|
            0 <= j < sp.len() && in_special(#[trigger] sp[j], off) by {
            if i < k - 1 {
                let j = choose|j: int| 0 <= j < old_sp.len() && in_special(#[trigger] old_sp[j], off);
                assert(in_special(sp[j], off));
            } else {
                let n = old_sp.len() as int;
                if r.full.0 <= off < r.content.0 {
                    assert(own[0] == hidden(r.full.0, r.content.0));
                    assert(sp[n] == own[0]);
                    assert(in_special(sp[n], off));
                } else {
                    assert(own[own.len() - 1] == hidden(r.content.1, r.full.1));
                    assert(sp[n + own.len() - 1] == own[own.len() - 1]);
                    assert(in_special(sp[n + own.len() - 1], off));
                }
            }
        }
    }
}

proof fn lemma_delimiters_stand_apart(v: LineView, k: int)
    requires
        0 <= k <= v.regions.len(),
        plain_regions(v),
        delimiters_apart(v),
    ensures
        apart(v.regions_specials(k), v.start, v.start + v.bytes.len()),
    decreases k,
{
    if k > 0 {
        lemma_delimiters_stand_apart(v, k - 1);
        lemma_delimits(v, k - 1);
        let r = v.regions[k - 1];
        let a = v.regions_specials(k - 1);
        let own = v.region_specials(r);
        let sp = v.regions_specials(k);
        let n = a.len() as int;
        assert(!r.is_image && r.display_text is None);
        assert(lies_in(r, v.start, v.start + v.bytes.len()));
        assert forall|i: int, j: int|
            0 <= i < j < sp.len() && in_line(
                #[trigger] sp[i],
                v.start,
                v.start + v.bytes.len(),
            ) && in_line(#[trigger] sp[j], v.start, v.start + v.bytes.len()) implies sp[i].end
            <= sp[j].start || sp[j].end <= sp[i].start by {
            if j < n {
                assert(sp[i] == a[i] && sp[j] == a[j]);
            } else if i >= n {
                assert(sp[i] == own[i - n] && sp[j] == own[j - n]);
            } else {
                assert(sp[i] == a[i] && sp[j] == own[j - n]);
                assert(is_some_delimiter(v, a[i], k - 1));
                let x = choose|x: int| 0 <= x < k - 1 && #[trigger] is_delimiter_of(v, a[i], x);
                let s = v.regions[x];
                assert(lies_in(s, v.start, v.start + v.bytes.len()));
                if a[i].end > sp[j].start && sp[j].end > a[i].start {
                    let off = if a[i].start > sp[j].start {
                        a[i].start
                    } else {
                        sp[j].start
                    };
                    assert(is_delimiter(v.regions[x], v.cursor, off));
                    assert(is_delimiter(v.regions[k - 1], v.cursor, off));
                }
            }
        }
    }
}

/// A line of text shows its bytes without the delimiters of the regions that the cursor is
/// away from: bold, italic, code and links hide both their opening and their closing marks,
/// and nothing else.
pub proof fn law_delimiters_hide(v: LineView)
    requires
        0 <= v.start,
        !v.markers.in_code_block,
        v.markers.markers.len() == 0,
        plain_regions(v),
        delimiters_apart(v),
    ensures
        v.rendered().text == without_delimiters(
            v.bytes,
            v.start,
            v.regions,
            v.cursor,
            v.bytes.len() as int,
        ),
{
    lemma_bare_line(v);
    assert forall|i: int| 0 <= i < v.regions.len() implies !(#[trigger] v.regions[i]).is_image by {}
    lemma_no_images(v.regions);
    let n = v.regions.len() as int;
    lemma_delimits(v, n);
    lemma_delimiters_stand_apart(v, n);
    law_display_is_the_shown_line(v.bytes, v.start, v.specials());
    lemma_shown_without_delimiters(v, v.bytes.len() as int);
}

proof fn lemma_shown_without_delimiters(v: LineView, n: int)
    requires
        0 <= n <= v.bytes.len(),
        plain_regions(v),
        delimits(v, v.regions.len() as int),
        v.specials() == v.regions_specials(v.regions.len() as int),
    ensures
        shown_upto(v.bytes, v.start, v.specials(), v.start + n) == without_delimiters(
            v.bytes,
            v.start,
            v.regions,
            v.cursor,
            n,
        ),
    decreases n,
{
    if n > 0 {
        lemma_shown_without_delimiters(v, n - 1);
        let off = v.start + n - 1;
        let end = v.start + v.bytes.len();
        let sp = v.specials();
        let k = v.regions.len() as int;
        assert forall|x: SpecialView| #[trigger]
            holds_byte(sp, v.start, end, x, off) implies in_delimiters(
            v.regions,
            v.cursor,
            off,
        ) && x.shown is None by {
            let j = choose|j: int| 0 <= j < sp.len() && sp[j] == x;
            assert(is_some_delimiter(v, sp[j], k));
            let i = choose|i: int| 0 <= i < k && #[trigger] is_delimiter_of(v, sp[j], i);
            assert(is_delimiter(v.regions[i], v.cursor, off));
        }
        assert forall|x: SpecialView| #[trigger]
            starts_at(sp, v.start, end, x, off) implies holds_byte(sp, v.start, end, x, off) by {}
        if in_delimiters(v.regions, v.cursor, off) {
            let i = choose|i: int|
                0 <= i < k && is_delimiter(#[trigger] v.regions[i], v.cursor, off);
            assert(is_delimiter(v.regions[i], v.cursor, off));
            let j = choose|j: int| 0 <= j < sp.len() && in_special(#[trigger] sp[j], off);
            assert(sp.contains(sp[j]));
            assert(is_some_delimiter(v, sp[j], k));
            let w = choose|w: int| 0 <= w < k && #[trigger] is_delimiter_of(v, sp[j], w);
            assert(lies_in(v.regions[w], v.start, end));
            assert(holds_byte(sp, v.start, end, sp[j], off));
            assert(shown_at(v.bytes, v.start, sp, off) =~= Seq::<u8>::empty());
        } else {
            assert(shown_at(v.bytes, v.start, sp, off) =~= seq![v.bytes[n - 1]]);
        }
        assert(shown_upto(v.bytes, v.start, sp, v.start + n) =~= without_delimiters(
            v.bytes,
            v.start,
            v.regions,
            v.cursor,
            n,
        ));
    }
}

proof fn lemma_one_region(v: LineView)
    requires
        !v.markers.in_code_block,
        v.markers.markers.len() == 0,
        v.regions.len() == 1,
        v.standalone() is None,
    ensures
        v.specials() == v.region_specials(v.regions[0]),
{
    lemma_bare_line(v);
    assert(v.regions_specials(0) =~= Seq::<SpecialView>::empty());
    assert(v.regions_specials(1) =~= v.region_specials(v.regions[0]));
}

/// A line of text with one styled region shows the text before it, its content and the text
/// after it while the cursor is away from the region, and all of the line while it is there.
/// What is shown of the region is styled as the region is: links are underlined and cyan,
/// code is green and in the code font, and other text keeps its color.
pub proof fn law_one_region(v: LineView)
    requires
        0 <= v.start,
        !v.markers.in_code_block,
        v.markers.markers.len() == 0,
        v.regions.len() == 1,
        !v.regions[0].is_image,
        v.regions[0].display_text is None,
        lies_in(v.regions[0], v.start, v.start + v.bytes.len()),
    ensures
        ({
            let r = v.regions[0];
            let away = v.cursor < r.full.0 || r.full.1 < v.cursor;
            let n = v.bytes.len() as int;
            let out = v.rendered();
            let styled = if away {
                r.content
            } else {
                r.full
            };
            &&& away ==> out.text == v.bytes.subrange(0, r.full.0 - v.start) + v.bytes.subrange(
                r.content.0 - v.start,
                r.content.1 - v.start,
            ) + v.bytes.subrange(r.full.1 - v.start, n)
            &&& !away ==> out.text == v.bytes
            &&& out.map.to_display(styled.0) < out.map.to_display(styled.1) ==> {
                &&& out.runs.len() == 1
                &&& out.runs[0].start == out.map.to_display(styled.0)
                &&& out.runs[0].end == out.map.to_display(styled.1)
                &&& out.runs[0].italic == r.style.italic
                &&& out.runs[0].strikethrough == r.style.strikethrough
                &&& out.runs[0].mono == r.style.code
                &&& out.runs[0].underline == (r.link_url is Some)
                &&& out.runs[0].bold == (r.style.bold || r.checkbox == Some(true))
                &&& r.checkbox == Some(true) ==> out.runs[0].color == ThemeColor::Green
                &&& r.checkbox == Some(false) ==> out.runs[0].color == ThemeColor::Comment
                &&& r.checkbox is None && r.link_url is Some ==> out.runs[0].color
                    == ThemeColor::Cyan
                &&& r.checkbox is None && r.link_url is None && r.style.code ==> out.runs[0].color
                    == ThemeColor::Green
                &&& r.checkbox is None && r.link_url is None && !r.style.code
                    ==> out.runs[0].color == ThemeColor::Foreground
                &&& r.checkbox is None && r.link_url is None && r.style.code ==> out.code_ranges
                    == seq![(out.runs[0].start, out.runs[0].end)]
                &&& !r.style.code ==> out.code_ranges.len() == 0
            }
            &&& out.font_scale == 100
            &&& out.inline_images.len() == 0 && out.image is None
        }),
{
    let r = v.regions[0];
    let n = v.bytes.len() as int;
    lemma_bare_line(v);
    assert forall|i: int| 0 <= i < v.regions.len() implies !(#[trigger] v.regions[i]).is_image by {}
    lemma_no_images(v.regions);
    lemma_one_region(v);
    let a = hidden(r.full.0, r.content.0);
    let b = hidden(r.content.1, r.full.1);
    let text = v.bytes.subrange(0, r.full.0 - v.start) + v.bytes.subrange(
        r.content.0 - v.start,
        r.content.1 - v.start,
    ) + v.bytes.subrange(r.full.1 - v.start, n);
    if r.full.0 <= v.cursor <= r.full.1 {
        lemma_no_specials(v);
    } else if r.full.0 < r.content.0 && r.content.1 < r.full.1 {
        assert(v.specials() =~= seq![a, b]);
        law_two_specials(v.bytes, v.start, a, b);
        assert(v.display() =~= text);
    } else if r.full.0 < r.content.0 {
        assert(v.specials() =~= seq![a]);
        law_one_special(v.bytes, v.start, a);
        assert(v.display() =~= text);
    } else if r.content.1 < r.full.1 {
        assert(v.specials() =~= seq![b]);
        law_one_special(v.bytes, v.start, b);
        assert(v.display() =~= text);
    } else {
        lemma_no_specials(v);
        assert(v.display() =~= text);
    }
    assert(v.boxes(0) =~= Seq::<BoxView>::empty());
    assert(v.boxes(1) =~= Seq::<BoxView>::empty());
    assert(v.placed(v.boxes(1)) =~= Seq::<BoxView>::empty());
    assert(v.region_runs(0) =~= Seq::<RunView>::empty());
    assert(v.text_runs() =~= v.region_runs(1));
    assert(v.chips(0) =~= Seq::<(int, int)>::empty());
    let d = v.styled(r);
    if d.0 < d.1 {
        assert(v.region_runs(1) =~= seq![v.region_run(r)]);
        if r.style.code && r.checkbox is None && r.link_url is None {
            assert(v.chips(1) =~= seq![d]);
        }
    }
}

/// A region with a text of its own is shown by that text while the cursor is away from it.
pub proof fn law_display_text_stands_in(v: LineView)
    requires
        0 <= v.start,
        !v.markers.in_code_block,
        v.markers.markers.len() == 0,
        v.regions.len() == 1,
        !v.regions[0].is_image,
        v.regions[0].display_text is Some,
        v.start <= v.regions[0].full.0 < v.regions[0].full.1 <= v.start + v.bytes.len(),
        v.cursor < v.regions[0].full.0 || v.regions[0].full.1 < v.cursor,
    ensures
        v.rendered().text == v.bytes.subrange(0, v.regions[0].full.0 - v.start) + encode_utf8(
            v.regions[0].display_text->0,
        ) + v.bytes.subrange(v.regions[0].full.1 - v.start, v.bytes.len() as int),
{
    let r = v.regions[0];
    lemma_bare_line(v);
    assert forall|i: int| 0 <= i < v.regions.len() implies !(#[trigger] v.regions[i]).is_image by {}
    lemma_no_images(v.regions);
    lemma_one_region(v);
    let x = shown(r.full.0, r.full.1, r.display_text->0);
    assert(v.specials() =~= seq![x]);
    law_one_special(v.bytes, v.start, x);
}

/// An image amid text is taken out of it while the cursor is away, and listed with its URL
/// and its alt text.
pub proof fn law_inline_image(v: LineView)
    requires
        0 <= v.start,
        !v.markers.in_code_block,
        v.markers.markers.len() == 0,
        v.regions.len() == 1,
        v.regions[0].is_image,
        v.regions[0].link_url is Some,
        v.rendered().image is None,
        lies_in(v.regions[0], v.start, v.start + v.bytes.len()),
        v.regions[0].full.0 < v.regions[0].full.1,
        v.cursor < v.regions[0].full.0 || v.regions[0].full.1 < v.cursor,
    ensures
        ({
            let r = v.regions[0];
            let out = v.rendered();
            &&& out.text == v.bytes.subrange(0, r.full.0 - v.start) + v.bytes.subrange(
                r.full.1 - v.start,
                v.bytes.len() as int,
            )
            &&& out.inline_images.len() == 1
            &&& Some(out.inline_images[0].url) == r.link_url
            &&& out.inline_images[0].alt == decode_utf8(
                v.bytes.subrange(r.content.0 - v.start, r.content.1 - v.start),
            )
            &&& out.inline_images[0].at == out.map.to_display(r.full.0)
        }),
{
    let r = v.regions[0];
    lemma_bare_line(v);
    lemma_one_region(v);
    let x = hidden(r.full.0, r.full.1);
    assert(v.specials() =~= seq![x]);
    law_one_special(v.bytes, v.start, x);
    assert(v.display() =~= v.bytes.subrange(0, r.full.0 - v.start) + v.bytes.subrange(
        r.full.1 - v.start,
        v.bytes.len() as int,
    ));
    let b = BoxView { url: r.link_url->0, alt: v.alt(r), at: r.full.0 };
    assert(v.boxes(0) =~= Seq::<BoxView>::empty());
    assert(v.boxes(1) =~= seq![b]);
    let p = v.placed(v.boxes(1));
    assert(p.len() == 1);
    assert(p.drop_last() =~= Seq::<BoxView>::empty());
    assert(sorted_boxes(p.drop_last()) =~= Seq::<BoxView>::empty());
    assert(sorted_boxes(p) =~= p);
}

proof fn lemma_one_marker(v: LineView)
    requires
        v.markers.markers.len() == 1,
        v.regions.len() == 0,
    ensures
        ({
            let m = v.markers.markers[0];
            &&& v.is_fence() == (m.kind is CodeBlockFence)
            &&& v.heading_level() == (if m.kind is Heading {
                m.kind->Heading_0
            } else {
                0
            })
            &&& any_checkbox(v.markers.markers) == (m.kind is Checkbox)
            &&& v.checkbox() == (if m.kind is Checkbox {
                Some(m.kind->Checkbox_checked)
            } else {
                None
            })
            &&& v.is_hr() == (m.kind is ThematicBreak && !v.on_line() && !v.in_code())
            &&& v.standalone() is None
            &&& span(v.markers.markers, MarkerClass::All) == Some((m.start, m.end))
            &&& m.kind !is Checkbox ==> span(v.markers.markers, MarkerClass::Spacer) == Some(
                (m.start, m.end),
            )
            &&& v.region_runs(v.regions.len() as int) == Seq::<RunView>::empty()
            &&& v.regions_specials(v.used_regions()) == Seq::<SpecialView>::empty()
            &&& v.marker_specials(1) == (match v.marker_text(m.kind) {
                Some(text) => if m.start >= v.start && m.end <= v.end() {
                    seq![shown(m.start, m.end, text)]
                } else {
                    seq![]
                },
                None => seq![],
            })
            &&& !v.in_code() ==> v.specials() == v.whole_specials() + v.marker_specials(1)
        }),
{
    let ms = v.markers.markers;
    let m = ms[0];
    assert(ms.drop_first().len() == 0);
    assert(first_kind(ms.drop_first(), |k: MarkerKindView| k is Heading) is None);
    assert(first_kind(ms.drop_first(), |k: MarkerKindView| k is Checkbox) is None);
    law_span_combines(ms, MarkerClass::All);
    law_span_combines(ms, MarkerClass::Spacer);
    assert(MarkerClass::All.holds(ms[0].kind));
    assert(m.kind !is Checkbox ==> MarkerClass::Spacer.holds(ms[0].kind));
    lemma_no_images(v.regions);
    assert(v.marker_specials(0) =~= Seq::<SpecialView>::empty());
    assert(v.marker_specials(1) =~= (match v.marker_text(m.kind) {
        Some(text) => if m.start >= v.start && m.end <= v.end() {
            seq![shown(m.start, m.end, text)]
        } else {
            seq![]
        },
        None => seq![],
    }));
    if m.kind is ThematicBreak {
        assert((|k: MarkerKindView| k is ThematicBreak)(ms[0].kind));
    }
    if m.kind is CodeBlockFence {
        assert((|k: MarkerKindView| k is CodeBlockFence)(ms[0].kind));
    }
    if m.kind is Checkbox {
        assert((|k: MarkerKindView| k is Checkbox)(ms[0].kind));
    }
    if !v.in_code() {
        assert(v.specials() =~= v.whole_specials() + v.marker_specials(1));
    }
}

/// A heading hides its marker while the cursor is on another line, and shows all of its line
/// while it is there. Its text is bold and purple, and the larger the lower its level.
pub proof fn law_headings(v: LineView)
    requires
        0 <= v.start == v.markers.start,
        !v.markers.in_code_block,
        v.markers.markers.len() == 1,
        v.markers.markers[0].kind is Heading,
        v.markers.markers[0].kind->Heading_0 > 0,
        v.start <= v.markers.markers[0].start < v.markers.markers[0].end <= v.start
            + v.bytes.len(),
        v.regions.len() == 0,
    ensures
        ({
            let m = v.markers.markers[0];
            let level = m.kind->Heading_0;
            let out = v.rendered();
            let away = v.cursor < v.markers.start || v.markers.end < v.cursor;
            &&& away ==> out.text == v.bytes.subrange(0, m.start - v.start) + v.bytes.subrange(
                m.end - v.start,
                v.bytes.len() as int,
            )
            &&& !away ==> out.text == v.bytes
            &&& out.text.len() > 0 ==> {
                &&& out.runs.len() == 1
                &&& out.runs[0].start == 0 && out.runs[0].end == out.text.len()
                &&& out.runs[0].bold && out.runs[0].color == ThemeColor::Purple
                &&& !out.runs[0].italic && !out.runs[0].mono && !out.runs[0].underline
                    && !out.runs[0].strikethrough
            }
            &&& level == 1 ==> out.font_scale == 180
            &&& level == 2 ==> out.font_scale == 150
            &&& level == 3 ==> out.font_scale == 130
            &&& level == 4 ==> out.font_scale == 115
            &&& level == 5 ==> out.font_scale == 105
            &&& level >= 6 ==> out.font_scale == 100
            &&& !out.is_hr && out.image is None && out.quote_bars.len() == 0
        }),
{
    let m = v.markers.markers[0];
    lemma_one_marker(v);
    assert(!v.in_code());
    let x = hidden(m.start, m.end);
    if v.markers.start <= v.cursor <= v.markers.end {
        assert(v.whole_specials() =~= Seq::<SpecialView>::empty());
        lemma_no_specials(v);
    } else {
        assert(v.whole_specials() =~= seq![x]);
        assert(v.specials() =~= seq![x]);
        law_one_special(v.bytes, v.start, x);
        assert(v.display() =~= v.bytes.subrange(0, m.start - v.start) + v.bytes.subrange(
            m.end - v.start,
            v.bytes.len() as int,
        ));
    }
    if v.display().len() > 0 {
        assert(v.text_runs() =~= seq![
            RunView { bold: true, ..plain_run(0, v.display().len() as int, ThemeColor::Purple) },
        ]);
    }
    assert(v.bars(0) =~= Seq::<int>::empty());
}

/// The mark of an unordered list is shown as a bullet, one for each kind of mark; the mark
/// of an ordered list is shown as it is.
pub proof fn law_list_marks(v: LineView)
    requires
        0 <= v.start,
        !v.markers.in_code_block,
        v.markers.markers.len() == 1,
        v.markers.markers[0].kind is ListItem,
        v.start <= v.markers.markers[0].start < v.markers.markers[0].end <= v.start
            + v.bytes.len(),
        v.regions.len() == 0,
    ensures
        ({
            let m = v.markers.markers[0];
            let out = v.rendered();
            let before = v.bytes.subrange(0, m.start - v.start);
            let after = v.bytes.subrange(m.end - v.start, v.bytes.len() as int);
            &&& m.kind->ordered ==> out.text == v.bytes
            &&& !m.kind->ordered && m.kind->unordered_marker == Some(UnorderedMarker::Star)
                ==> out.text == before + encode_utf8(seq!['◦', ' ']) + after
            &&& !m.kind->ordered && m.kind->unordered_marker == Some(UnorderedMarker::Plus)
                ==> out.text == before + encode_utf8(seq!['‣', ' ']) + after
            &&& !m.kind->ordered && m.kind->unordered_marker == Some(UnorderedMarker::Minus)
                ==> out.text == before + encode_utf8(seq!['•', ' ']) + after
            &&& !m.kind->ordered && m.kind->unordered_marker is None ==> out.text == before
                + encode_utf8(seq!['•', ' ']) + after
            &&& out.runs.len() == 0
            &&& out.content_start == out.map.to_display(m.end)
            &&& out.font_scale == 100
        }),
{
    let m = v.markers.markers[0];
    lemma_one_marker(v);
    reveal_strlit("• ");
    reveal_strlit("◦ ");
    reveal_strlit("‣ ");
    assert("• "@ =~= seq!['•', ' ']);
    assert("◦ "@ =~= seq!['◦', ' ']);
    assert("‣ "@ =~= seq!['‣', ' ']);
    assert(!v.in_code());
    assert(v.whole_specials() =~= Seq::<SpecialView>::empty());
    if m.kind->ordered {
        lemma_no_specials(v);
    } else {
        let x = shown(m.start, m.end, v.marker_text(m.kind)->0);
        assert(v.specials() =~= seq![x]);
        law_one_special(v.bytes, v.start, x);
    }
    assert(v.text_runs() =~= Seq::<RunView>::empty());
}

/// A quote mark is shown as two spaces, with a bar where it starts.
pub proof fn law_quote_marks(v: LineView)
    requires
        0 <= v.start,
        !v.markers.in_code_block,
        v.markers.markers.len() == 1,
        v.markers.markers[0].kind is BlockQuote,
        v.start <= v.markers.markers[0].start < v.markers.markers[0].end <= v.start
            + v.bytes.len(),
        v.regions.len() == 0,
    ensures
        ({
            let m = v.markers.markers[0];
            let out = v.rendered();
            &&& out.text == v.bytes.subrange(0, m.start - v.start) + encode_utf8(seq![' ', ' '])
                + v.bytes.subrange(m.end - v.start, v.bytes.len() as int)
            &&& out.quote_bars == seq![out.map.to_display(m.start)]
            &&& out.runs.len() == 0
        }),
{
    let m = v.markers.markers[0];
    lemma_one_marker(v);
    reveal_strlit("  ");
    assert("  "@ =~= seq![' ', ' ']);
    assert(v.whole_specials() =~= Seq::<SpecialView>::empty());
    let x = shown(m.start, m.end, "  "@);
    assert(v.specials() =~= seq![x]);
    law_one_special(v.bytes, v.start, x);
    assert(v.text_runs() =~= Seq::<RunView>::empty());
    assert(v.bars(0) =~= Seq::<int>::empty());
    assert(v.bars(1) =~= seq![v.map().to_display(m.start)]);
}

/// A task shows its box in place of its list mark; once it is checked, all of it is dimmed.
pub proof fn law_tasks(v: LineView, checked: bool)
    requires
        0 <= v.start,
        !v.markers.in_code_block,
        v.markers.markers.len() == 2,
        v.markers.markers[0].kind == (MarkerKindView::Checkbox { checked }),
        v.markers.markers[1].kind is ListItem,
        !v.markers.markers[1].kind->ordered,
        v.start <= v.markers.markers[1].start < v.markers.markers[1].end <= v.start
            + v.bytes.len(),
        v.regions.len() == 0,
    ensures
        ({
            let m = v.markers.markers[1];
            let out = v.rendered();
            &&& out.text == v.bytes.subrange(0, m.start - v.start) + v.bytes.subrange(
                m.end - v.start,
                v.bytes.len() as int,
            )
            &&& checked && out.text.len() > 0 ==> {
                &&& out.runs.len() == 1
                &&& out.runs[0].start == 0 && out.runs[0].end == out.text.len()
                &&& out.runs[0].color == ThemeColor::Comment
                &&& !out.runs[0].bold
            }
            &&& !checked ==> out.runs.len() == 0
        }),
{
    let ms = v.markers.markers;
    let m = ms[1];
    reveal_strlit("");
    assert((|k: MarkerKindView| k is Checkbox)(ms[0].kind));
    assert(any_checkbox(ms));
    assert(!v.is_fence());
    lemma_first_kind_none(ms, |k: MarkerKindView| k is Heading);
    lemma_no_images(v.regions);
    assert(v.whole_specials() =~= Seq::<SpecialView>::empty());
    let x = shown(m.start, m.end, ""@);
    assert(""@ =~= Seq::<char>::empty());
    assert(encode_utf8(""@) =~= Seq::<u8>::empty());
    assert(v.marker_specials(0) =~= Seq::<SpecialView>::empty());
    assert(v.marker_specials(1) =~= Seq::<SpecialView>::empty());
    assert(v.marker_specials(2) =~= seq![x]);
    assert(v.regions_specials(0) =~= Seq::<SpecialView>::empty());
    assert(v.specials() =~= seq![x]);
    law_one_special(v.bytes, v.start, x);
    assert(v.display() =~= v.bytes.subrange(0, m.start - v.start) + v.bytes.subrange(
        m.end - v.start,
        v.bytes.len() as int,
    ));
    assert(v.checkbox() == Some(checked));
    assert(v.region_runs(0) =~= Seq::<RunView>::empty());
    if checked && v.display().len() > 0 {
        assert(v.text_runs() =~= seq![
            plain_run(0, v.display().len() as int, ThemeColor::Comment),
        ]);
    } else if !checked {
        assert(v.text_runs() =~= Seq::<RunView>::empty());
    }
}

/// A thematic break is a rule without text while the cursor is on another line, and text
/// while it is there.
pub proof fn law_rules(v: LineView)
    requires
        0 <= v.start,
        !v.markers.in_code_block,
        v.markers.markers.len() == 1,
        v.markers.markers[0].kind is ThematicBreak,
        v.regions.len() == 0,
    ensures
        v.cursor < v.markers.start || v.markers.end < v.cursor ==> v.rendered().is_hr
            && v.rendered().text.len() == 0,
        v.markers.start <= v.cursor <= v.markers.end ==> !v.rendered().is_hr && v.rendered().text
            == v.bytes,
{
    lemma_one_marker(v);
    assert(!v.in_code());
    if v.markers.start <= v.cursor <= v.markers.end {
        assert(v.whole_specials() =~= Seq::<SpecialView>::empty());
        lemma_no_specials(v);
    } else {
        law_drawn_lines_show_no_text(v);
    }
}

/// A line inside a code block is shown byte by byte in the code font, with the captures of
/// its code in their colors on top, whatever its regions are and wherever the cursor is.
pub proof fn law_code_lines(v: LineView)
    requires
        0 <= v.start,
        v.markers.in_code_block,
        v.markers.markers.len() == 0,
        v.bytes.len() > 0,
        forall|i: int|
            0 <= i < v.highlights.len() ==> v.start <= (#[trigger] v.highlights[i]).range.start
                < v.highlights[i].range.end <= v.start + v.bytes.len(),
    ensures
        ({
            let out = v.rendered();
            &&& out.text == v.bytes
            &&& out.runs.len() == 1 + v.highlights.len()
            &&& out.runs[0].start == 0 && out.runs[0].end == v.bytes.len()
            &&& out.runs[0].color == ThemeColor::Foreground
            &&& forall|i: int|
                0 <= i < out.runs.len() ==> (#[trigger] out.runs[i]).mono && !out.runs[i].bold
                    && !out.runs[i].italic && !out.runs[i].underline
                    && !out.runs[i].strikethrough
            &&& forall|i: int|
                0 <= i < v.highlights.len() ==> {
                    &&& (#[trigger] out.runs[i + 1]).start == v.highlights[i].range.start - v.start
                    &&& out.runs[i + 1].end == v.highlights[i].range.end - v.start
                    &&& out.runs[i + 1].color == ThemeColor::Highlight(
                        v.highlights[i].highlight_id,
                    )
                }
            &&& out.code_ranges.len() == 0 && out.quote_bars.len() == 0
            &&& out.image is None && out.inline_images.len() == 0 && !out.is_hr
        }),
{
    lemma_no_specials(v);
    let n = v.highlights.len() as int;
    lemma_capture_runs(v, n);
    let base = mono_run(0, v.bytes.len() as int, ThemeColor::Foreground);
    let caps = v.capture_runs(n);
    assert(v.code_runs() =~= seq![base] + caps);
    let out = v.rendered();
    assert forall|i: int| 0 <= i < out.runs.len() implies (#[trigger] out.runs[i]).mono
        && !out.runs[i].bold && !out.runs[i].italic && !out.runs[i].underline
        && !out.runs[i].strikethrough by {
        if i > 0 {
            assert(out.runs[i] == caps[i - 1]);
        }
    }
    assert forall|i: int| 0 <= i < n implies (#[trigger] out.runs[i + 1]).start
        == v.highlights[i].range.start - v.start && out.runs[i + 1].end
        == v.highlights[i].range.end - v.start && out.runs[i + 1].color == ThemeColor::Highlight(
        v.highlights[i].highlight_id,
    ) by {
        assert(out.runs[i + 1] == caps[i]);
    }
    assert(v.placed(v.boxes(0)) =~= Seq::<BoxView>::empty());
}

proof fn lemma_capture_runs(v: LineView, k: int)
    requires
        0 <= v.start,
        0 <= k <= v.highlights.len(),
        v.specials() =~= Seq::<SpecialView>::empty(),
        forall|i: int|
            0 <= i < v.highlights.len() ==> v.start <= (#[trigger] v.highlights[i]).range.start
                < v.highlights[i].range.end <= v.start + v.bytes.len(),
    ensures
        v.capture_runs(k).len() == k,
        forall|i: int|
            0 <= i < k ==> (#[trigger] v.capture_runs(k)[i]) == mono_run(
                v.highlights[i].range.start - v.start,
                v.highlights[i].range.end - v.start,
                ThemeColor::Highlight(v.highlights[i].highlight_id),
            ),
    decreases k,
{
    if k > 0 {
        lemma_capture_runs(v, k - 1);
        let h = v.highlights[k - 1];
        law_identity_round_trips(v.bytes, v.start, h.range.start - v.start);
        law_identity_round_trips(v.bytes, v.start, h.range.end - v.start);
        assert(v.specials() =~= Seq::<SpecialView>::empty());
        assert(v.map() == built_map(v.bytes, v.start, Seq::<SpecialView>::empty()));
    }
}

/// The text of a line is what is between its ends, without the line break.
pub proof fn law_lines_lose_their_break(
    bytes: Seq<u8>,
    line: SnapshotLine,
    cursor: int,
    styles: Seq<RegionView>,
    extra: Seq<RegionView>,
)
    requires
        0 <= line.markers@.start < line.markers@.end <= bytes.len(),
    ensures
        ({
            let m = line.markers@;
            let v = line_view(bytes, line, cursor, styles, extra);
            &&& bytes[m.end - 1] == 10 ==> v.bytes == bytes.subrange(m.start, m.end - 1)
            &&& bytes[m.end - 1] != 10 ==> v.bytes == bytes.subrange(m.start, m.end)
            &&& v.start == m.start && v.cursor == cursor && v.markers == m
            &&& v.highlights == line.code_highlights@
        }),
{
}

/// Without checkboxes a line has the regions of its text, in the order given, and those
/// from elsewhere behind them.
pub proof fn law_regions_come_together(
    ms: Seq<MarkerView>,
    styles: Seq<RegionView>,
    extra: Seq<RegionView>,
)
    requires
        forall|i: int| 0 <= i < ms.len() ==> (#[trigger] ms[i]).kind !is Checkbox,
    ensures
        extra.len() == 0 ==> merged_regions(ms, styles, extra) == styles,
        merged_regions(ms, styles, extra).len() == styles.len() + extra.len(),
        forall|i: int|
            0 <= i < extra.len() ==> #[trigger] merged_regions(ms, styles, extra)[styles.len() + i]
                == extra[i],
{
    lemma_checkbox_regions(ms);
    law_sorted_regions_in_order(styles + checkbox_regions(ms));
    assert(styles + checkbox_regions(ms) =~= styles);
}

proof fn lemma_checkbox_regions(ms: Seq<MarkerView>)
    requires
        forall|i: int| 0 <= i < ms.len() ==> (#[trigger] ms[i]).kind !is Checkbox,
    ensures
        checkbox_regions(ms) == Seq::<RegionView>::empty(),
    decreases ms.len(),
{
    if ms.len() > 0 {
        let rest = ms.drop_last();
        assert(ms[ms.len() - 1].kind !is Checkbox);
        assert forall|i: int| 0 <= i < rest.len() implies (#[trigger] rest[i]).kind !is Checkbox by {
            assert(rest[i] == ms[i]);
        }
        lemma_checkbox_regions(rest);
    }
}

/// The box of a task is a region of three bytes, in the state of the task.
pub proof fn law_checkbox_is_a_region(m: MarkerView, checked: bool)
    requires
        m.kind == (MarkerKindView::Checkbox { checked }),
    ensures
        ({
            let rs = merged_regions(seq![m], seq![], seq![]);
            &&& rs.len() == 1
            &&& rs[0].full == (m.start, m.start + 3) && rs[0].content == rs[0].full
            &&& rs[0].checkbox == Some(checked)
            &&& rs[0].link_url is None && rs[0].display_text is None && !rs[0].is_image
            &&& !rs[0].style.bold && !rs[0].style.italic && !rs[0].style.code
                && !rs[0].style.strikethrough
        }),
{
    let ms = seq![m];
    assert((|k: MarkerKindView| k is Checkbox)(ms[0].kind));
    assert(ms.drop_last() =~= Seq::<MarkerView>::empty());
    assert(checkbox_regions(ms.drop_last()) =~= Seq::<RegionView>::empty());
    let all = Seq::<RegionView>::empty() + checkbox_regions(ms);
    assert(all.len() == 1);
    assert(all.drop_last() =~= Seq::<RegionView>::empty());
    assert(sorted_regions(all.drop_last()) =~= Seq::<RegionView>::empty());
    assert(sorted_regions(all) =~= all);
    assert(merged_regions(ms, seq![], seq![]) =~= all);
}

} // verus!
