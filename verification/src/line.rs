//! One line of the editor as rich text: what is shown of it, how, and where positions
//! in it lie in the buffer.
use crate::highlight::HighlightSpan;
use crate::inline::{regions_view, RegionView, StyledRegion};
use crate::marker::{
    any_kind, blank_text, copy_text, find_byte, first_kind, is_silent, position_of, prefix_end,
    range_pair, span, substitutions, text_if_any, LineMarkers, LineMarkersView, Marker,
    MarkerClass, MarkerKind, MarkerKindView, MarkerView,
};
use crate::render::{cursor_in, cursor_inside, ints_of};
use crate::rope::{rope_bytes, rope_slice};
use crate::segment_map::{max2, min2};
use crate::text::{
    byte_len, chars_of, chars_vec, has_at, is_slice, lemma_encode_concat, matches_at, slice,
    str_eq, string_of, trim_end, trim_right,
};
use std::ops::Range;
use vstd::prelude::*;
use vstd::string::*;
use vstd::utf8::*;

verus! {

// ---------------------------------------------------------------------------
// Visual positions
// ---------------------------------------------------------------------------

/// (opening_start, opening_end, closing_start, closing_end) for collapsed markdown syntax.
pub type HiddenRegion = (usize, usize, usize, usize);

/// The byte at `pos` belongs to a hidden delimiter.
pub open spec fn is_hidden(regions: Seq<HiddenRegion>, pos: int) -> bool {
    exists|i: int| 0 <= i < regions.len() && #[trigger] hides(regions[i], pos)
}

/// A region hides the byte at `pos`.
pub open spec fn hides(r: HiddenRegion, pos: int) -> bool {
    r.0 <= pos < r.1 || r.2 <= pos < r.3
}

/// How many bytes of `from..to` are not hidden.
pub open spec fn visible(regions: Seq<HiddenRegion>, from: int, to: int) -> int
    decreases to - from,
{
    if to <= from {
        0
    } else {
        visible(regions, from, to - 1) + (if is_hidden(regions, to - 1) {
            0int
        } else {
            1
        })
    }
}

/// Where the walk from `pos` has passed `n` bytes that are not hidden, before `end`.
pub open spec fn after_visible(regions: Seq<HiddenRegion>, pos: int, n: int, end: int) -> int
    decreases end - pos,
{
    if pos >= end || n <= 0 {
        pos
    } else if is_hidden(regions, pos) {
        after_visible(regions, pos + 1, n, end)
    } else {
        after_visible(regions, pos + 1, n - 1, end)
    }
}

/// The visual index of a buffer position.
pub open spec fn to_visual(
    pos: int,
    content: (int, int),
    marker_len: int,
    regions: Seq<HiddenRegion>,
) -> int {
    if content.0 >= content.1 || pos <= content.0 {
        0
    } else {
        visible(regions, content.0 + marker_len, min2(pos, content.1))
    }
}

/// The buffer position of a visual index.
pub open spec fn from_visual(
    index: int,
    content: (int, int),
    marker_len: int,
    regions: Seq<HiddenRegion>,
    line_end: int,
) -> int {
    if content.0 >= content.1 {
        content.0
    } else if regions.len() == 0 {
        min2(content.0 + marker_len + index, line_end)
    } else {
        min2(after_visible(regions, content.0 + marker_len, index, content.1), line_end)
    }
}

fn is_hidden_at(regions: &[HiddenRegion], pos: usize) -> (r: bool)
    ensures
        r == is_hidden(regions@, pos as int),
{
    let mut i: usize = 0;
    while i < regions.len()
        invariant
            i <= regions@.len(),
            forall|k: int| 0 <= k < i ==> !#[trigger] hides(regions@[k], pos as int),
        decreases regions@.len() - i,
    {
        let r = regions[i];
        if (pos >= r.0 && pos < r.1) || (pos >= r.2 && pos < r.3) {
            assert(hides(regions@[i as int], pos as int));
            return true;
        }
        i += 1;
    }
    false
}

proof fn lemma_visible_bound(regions: Seq<HiddenRegion>, from: int, to: int)
    requires
        from <= to,
    ensures
        0 <= visible(regions, from, to) <= to - from,
    decreases to - from,
{
    if from < to {
        lemma_visible_bound(regions, from, to - 1);
    }
}

proof fn lemma_visible_of_none(from: int, to: int)
    ensures
        visible(Seq::<HiddenRegion>::empty(), from, to) == max2(to - from, 0),
    decreases to - from,
{
    if from < to {
        lemma_visible_of_none(from, to - 1);
    }
}

/// Convert a buffer position to a visual index, accounting for hidden regions.
/// This is the inverse of `visual_to_buffer_pos`.
pub fn buffer_to_visual_pos(
    buffer_pos: usize,
    content_range: &Range<usize>,
    heading_marker_len: usize,
    hidden_regions: &[HiddenRegion],
) -> (r: usize)
    requires
        content_range.start < content_range.end && buffer_pos > content_range.start
            ==> content_range.start + heading_marker_len <= usize::MAX,
    ensures
        r == to_visual(
            buffer_pos as int,
            (content_range.start as int, content_range.end as int),
            heading_marker_len as int,
            hidden_regions@,
        ),
{
    if content_range.start >= content_range.end || buffer_pos <= content_range.start {
        return 0;
    }
    let start = content_range.start + heading_marker_len;
    let end = if buffer_pos <= content_range.end {
        buffer_pos
    } else {
        content_range.end
    };
    if hidden_regions.len() == 0 {
        proof {
            assert(hidden_regions@ =~= Seq::<HiddenRegion>::empty());
            lemma_visible_of_none(start as int, end as int);
        }
        return if end >= start {
            end - start
        } else {
            0
        };
    }
    // Count visible bytes from start to buffer_pos
    let mut visible_count: usize = 0;
    let mut pos: usize = start;
    while pos < end
        invariant
            start <= pos,
            pos <= end || pos == start,
            visible_count == visible(hidden_regions@, start as int, pos as int),
            visible_count <= pos - start,
        decreases end - pos,
    {
        if !is_hidden_at(hidden_regions, pos) {
            visible_count += 1;
        }
        pos += 1;
    }
    visible_count
}

/// Convert a visual position (index into display text, after prefix) to a buffer offset.
pub fn visual_to_buffer_pos(
    visual_index: usize,
    content_range: &Range<usize>,
    heading_marker_len: usize,
    hidden_regions: &[HiddenRegion],
    line_end: usize,
) -> (r: usize)
    requires
        content_range.start < content_range.end ==> content_range.start + heading_marker_len + (
        if hidden_regions@.len() == 0 {
            visual_index as int
        } else {
            0
        }) <= usize::MAX,
    ensures
        r == from_visual(
            visual_index as int,
            (content_range.start as int, content_range.end as int),
            heading_marker_len as int,
            hidden_regions@,
            line_end as int,
        ),
{
    if content_range.start >= content_range.end {
        return content_range.start;
    }
    if hidden_regions.len() == 0 {
        let pos = content_range.start + heading_marker_len + visual_index;
        return if pos <= line_end {
            pos
        } else {
            line_end
        };
    }
    let start = content_range.start + heading_marker_len;
    let end = content_range.end;
    let mut pos: usize = start;
    let mut visible_count: usize = 0;
    while pos < end && visible_count < visual_index
        invariant
            visible_count <= visual_index,
            start <= pos,
            after_visible(hidden_regions@, start as int, visual_index as int, end as int)
                == after_visible(
                hidden_regions@,
                pos as int,
                visual_index - visible_count,
                end as int,
            ),
        decreases end - pos,
    {
        if !is_hidden_at(hidden_regions, pos) {
            visible_count += 1;
        }
        pos += 1;
    }
    if pos <= line_end {
        pos
    } else {
        line_end
    }
}

proof fn lemma_visible_step(regions: Seq<HiddenRegion>, from: int, to: int)
    requires
        from < to,
    ensures
        visible(regions, from, to) == visible(regions, from + 1, to) + (if is_hidden(
            regions,
            from,
        ) {
            0int
        } else {
            1
        }),
    decreases to - from,
{
    reveal_with_fuel(visible, 2);
    if from + 1 < to {
        lemma_visible_step(regions, from, to - 1);
    }
}

proof fn lemma_after_visible(regions: Seq<HiddenRegion>, pos: int, n: int, end: int)
    requires
        pos <= end,
        0 <= n <= visible(regions, pos, end),
    ensures
        pos <= after_visible(regions, pos, n, end) <= end,
        visible(regions, pos, after_visible(regions, pos, n, end)) == n,
    decreases end - pos,
{
    if pos < end && n > 0 {
        lemma_visible_step(regions, pos, end);
        let m = if is_hidden(regions, pos) {
            n
        } else {
            n - 1
        };
        lemma_after_visible(regions, pos + 1, m, end);
        let q = after_visible(regions, pos + 1, m, end);
        lemma_visible_step(regions, pos, q);
    }
}

/// For every visual index that the line has, going to the buffer and back gives the
/// index again.
pub proof fn law_visual_round_trips(
    index: int,
    content: (int, int),
    marker_len: int,
    regions: Seq<HiddenRegion>,
    line_end: int,
)
    requires
        content.0 < content.1 <= line_end,
        0 <= marker_len,
        0 <= index <= visible(regions, content.0 + marker_len, content.1),
    ensures
        to_visual(
            from_visual(index, content, marker_len, regions, line_end),
            content,
            marker_len,
            regions,
        ) == index,
{
    let start = content.0 + marker_len;
    if start <= content.1 {
        lemma_visible_bound(regions, start, content.1);
        if regions.len() == 0 {
            assert(regions =~= Seq::<HiddenRegion>::empty());
            lemma_visible_of_none(start, start + index);
        } else {
            lemma_after_visible(regions, start, index, content.1);
        }
    }
}

/// A later buffer position has no smaller visual index.
pub proof fn law_to_visual_monotone(
    a: int,
    b: int,
    content: (int, int),
    marker_len: int,
    regions: Seq<HiddenRegion>,
)
    requires
        a <= b,
        0 <= marker_len,
    ensures
        0 <= to_visual(a, content, marker_len, regions) <= to_visual(
            b,
            content,
            marker_len,
            regions,
        ),
{
    let start = content.0 + marker_len;
    lemma_visible_monotone(regions, start, min2(a, content.1), min2(b, content.1));
    lemma_visible_monotone(regions, start, start, min2(a, content.1));
    lemma_visible_monotone(regions, start, start, min2(b, content.1));
}

proof fn lemma_visible_monotone(regions: Seq<HiddenRegion>, from: int, a: int, b: int)
    ensures
        a <= b ==> visible(regions, from, a) <= visible(regions, from, b),
        0 <= visible(regions, from, b),
    decreases b - a,
{
    if a < b {
        lemma_visible_monotone(regions, from, a, b - 1);
    }
    if from <= b {
        lemma_visible_bound(regions, from, b);
    }
}

// ---------------------------------------------------------------------------
// Runs
// ---------------------------------------------------------------------------

/// A color of a line, by its role.
#[derive(Debug, Clone, Copy, PartialEq, Eq, Structural)]
pub enum LineColor {
    Text,
    Link,
    Selection,
    Border,
    Code,
    Fence,
    FenceLang,
    CheckboxUnchecked,
    CheckboxChecked,
    Transparent,
    /// The color of changed words.
    InlineHighlight,
    /// The color of a syntax highlighting capture.
    Capture(usize),
}

/// A run of text in one font and color. Runs follow one another, each `len` bytes long.
/// Text is underlined in the link color and struck through in the border color.
#[derive(Debug, Clone, Copy, PartialEq, Eq)]
pub struct TextRun {
    pub len: usize,
    /// The code font rather than the text font.
    pub code_font: bool,
    pub bold: bool,
    pub italic: bool,
    pub color: LineColor,
    pub background_color: Option<LineColor>,
    pub underline: bool,
    pub strikethrough: bool,
}

/// The bytes that some runs cover.
pub open spec fn run_bytes(runs: Seq<TextRun>) -> int
    decreases runs.len(),
{
    if runs.len() == 0 {
        0
    } else {
        run_bytes(runs.drop_last()) + runs.last().len
    }
}

/// A range and the run `start..end` have a byte in common.
pub open spec fn overlaps(r: Range<usize>, start: int, end: int) -> bool {
    r.start < end && r.end > start
}

/// Some range that overlaps the run holds the byte at `pos`.
pub open spec fn marked(ranges: Seq<Range<usize>>, start: int, end: int, pos: int) -> bool {
    exists|i: int| 0 <= i < ranges.len() && #[trigger] marks(ranges[i], start, end, pos)
}

/// A range that overlaps the run holds the byte at `pos`.
pub open spec fn marks(r: Range<usize>, start: int, end: int, pos: int) -> bool {
    overlaps(r, start, end) && r.start <= pos < r.end
}

/// Where a range cuts the rest `pos..end` of a run: at its start, else at its end; `end`
/// where it cuts nowhere.
pub open spec fn cut_of(r: Range<usize>, pos: int, end: int) -> int {
    if pos < r.start < end {
        r.start as int
    } else if pos < r.end < end {
        r.end as int
    } else {
        end
    }
}

/// The first place after `pos` where one of the first `k` ranges that overlap the run
/// `start..end` cuts it.
pub open spec fn first_cut(
    ranges: Seq<Range<usize>>,
    start: int,
    end: int,
    pos: int,
    k: int,
) -> int
    decreases k,
{
    if k <= 0 {
        end
    } else {
        let rest = first_cut(ranges, start, end, pos, k - 1);
        if overlaps(ranges[k - 1], start, end) {
            min2(rest, cut_of(ranges[k - 1], pos, end))
        } else {
            rest
        }
    }
}

/// The pieces of the run `start..end` from `pos` on: cut where a range starts or ends,
/// with the background wherever a range is.
pub open spec fn pieces(
    run: TextRun,
    ranges: Seq<Range<usize>>,
    background: LineColor,
    start: int,
    end: int,
    pos: int,
) -> Seq<TextRun>
    decreases end - pos,
{
    let next = first_cut(ranges, start, end, pos, ranges.len() as int);
    if pos >= end || next <= pos || next > end {
        seq![]
    } else {
        seq![
            TextRun {
                len: (next - pos) as usize,
                background_color: if marked(ranges, start, end, pos) {
                    Some(background)
                } else {
                    run.background_color
                },
                ..run
            },
        ] + pieces(run, ranges, background, start, end, next)
    }
}

/// Some range overlaps the run.
pub open spec fn touched(ranges: Seq<Range<usize>>, start: int, end: int) -> bool {
    exists|i: int| 0 <= i < ranges.len() && #[trigger] overlaps(ranges[i], start, end)
}

/// The runs with a background behind the ranges.
pub open spec fn with_background(
    runs: Seq<TextRun>,
    ranges: Seq<Range<usize>>,
    background: LineColor,
) -> Seq<TextRun>
    decreases runs.len(),
{
    if runs.len() == 0 {
        seq![]
    } else {
        let rest = with_background(runs.drop_last(), ranges, background);
        let start = run_bytes(runs.drop_last());
        let end = start + runs.last().len;
        if touched(ranges, start, end) {
            rest + pieces(runs.last(), ranges, background, start, end, start)
        } else {
            rest.push(runs.last())
        }
    }
}

proof fn lemma_first_cut(ranges: Seq<Range<usize>>, start: int, end: int, pos: int, k: int)
    requires
        pos < end,
        0 <= k <= ranges.len(),
    ensures
        pos < first_cut(ranges, start, end, pos, k) <= end,
    decreases k,
{
    if k > 0 {
        lemma_first_cut(ranges, start, end, pos, k - 1);
    }
}

proof fn lemma_run_bytes_split(runs: Seq<TextRun>, k: int)
    requires
        0 <= k <= runs.len(),
    ensures
        0 <= run_bytes(runs.subrange(0, k)) <= run_bytes(runs),
    decreases runs.len(),
{
    if k < runs.len() {
        lemma_run_bytes_split(runs.drop_last(), k);
        assert(runs.drop_last().subrange(0, k) =~= runs.subrange(0, k));
    } else {
        assert(runs.subrange(0, k) =~= runs);
        if runs.len() > 0 {
            lemma_run_bytes_split(runs.drop_last(), k - 1);
        }
    }
}

/// The first place after `pos` where a range that overlaps the run cuts it.
fn next_cut(ranges: &[Range<usize>], start: usize, end: usize, pos: usize) -> (r: usize)
    requires
        pos < end,
    ensures
        r == first_cut(ranges@, start as int, end as int, pos as int, ranges@.len() as int),
        pos < r <= end,
{
    let mut next = end;
    let mut i: usize = 0;
    while i < ranges.len()
        invariant
            pos < end,
            i <= ranges@.len(),
            next == first_cut(ranges@, start as int, end as int, pos as int, i as int),
            pos < next <= end,
        decreases ranges@.len() - i,
    {
        let r = &ranges[i];
        if r.start < end && r.end > start {
            let cut = if r.start > pos && r.start < end {
                r.start
            } else if r.end > pos && r.end < end {
                r.end
            } else {
                end
            };
            if cut < next {
                next = cut;
            }
        }
        i += 1;
    }
    next
}

fn is_touched(ranges: &[Range<usize>], start: usize, end: usize) -> (r: bool)
    ensures
        r == touched(ranges@, start as int, end as int),
{
    let mut i: usize = 0;
    while i < ranges.len()
        invariant
            i <= ranges@.len(),
            forall|k: int|
                0 <= k < i ==> !#[trigger] overlaps(ranges@[k], start as int, end as int),
        decreases ranges@.len() - i,
    {
        if ranges[i].start < end && ranges[i].end > start {
            assert(overlaps(ranges@[i as int], start as int, end as int));
            return true;
        }
        i += 1;
    }
    false
}

fn is_marked(ranges: &[Range<usize>], start: usize, end: usize, pos: usize) -> (r: bool)
    ensures
        r == marked(ranges@, start as int, end as int, pos as int),
{
    let mut i: usize = 0;
    while i < ranges.len()
        invariant
            i <= ranges@.len(),
            forall|k: int|
                0 <= k < i ==> !#[trigger] marks(
                    ranges@[k],
                    start as int,
                    end as int,
                    pos as int,
                ),
        decreases ranges@.len() - i,
    {
        let r = &ranges[i];
        if r.start < end && r.end > start && pos >= r.start && pos < r.end {
            assert(marks(ranges@[i as int], start as int, end as int, pos as int));
            return true;
        }
        i += 1;
    }
    false
}

/// Apply background color to runs for the given ranges, splitting runs where a range
/// starts or ends inside them.
pub fn apply_background_to_runs(
    runs: Vec<TextRun>,
    ranges: &[Range<usize>],
    background: LineColor,
) -> (r: Vec<TextRun>)
    requires
        run_bytes(runs@) <= usize::MAX,
    ensures
        r@ == (if ranges@.len() == 0 {
            runs@
        } else {
            with_background(runs@, ranges@, background)
        }),
{
    if ranges.len() == 0 {
        return runs;
    }
    let mut result: Vec<TextRun> = Vec::new();
    let mut start: usize = 0;
    let mut i: usize = 0;
    assert(runs@.subrange(0, 0) =~= Seq::<TextRun>::empty());
    while i < runs.len()
        invariant
            i <= runs@.len(),
            run_bytes(runs@) <= usize::MAX,
            start == run_bytes(runs@.subrange(0, i as int)),
            result@ == with_background(runs@.subrange(0, i as int), ranges@, background),
        decreases runs@.len() - i,
    {
        let run = runs[i];
        proof {
            let upto = runs@.subrange(0, i + 1);
            assert(upto.drop_last() =~= runs@.subrange(0, i as int));
            assert(upto.last() == run);
            lemma_run_bytes_split(runs@, i + 1);
        }
        let end = start + run.len;
        if is_touched(ranges, start, end) {
            let ghost before = result@;
            let mut pos = start;
            assert(before + pieces(run, ranges@, background, start as int, end as int, pos as int)
                =~= result@ + pieces(
                run,
                ranges@,
                background,
                start as int,
                end as int,
                pos as int,
            ));
            while pos < end
                invariant
                    start <= pos <= end,
                    before + pieces(
                        run,
                        ranges@,
                        background,
                        start as int,
                        end as int,
                        start as int,
                    ) == result@ + pieces(
                        run,
                        ranges@,
                        background,
                        start as int,
                        end as int,
                        pos as int,
                    ),
                decreases end - pos,
            {
                let next = next_cut(ranges, start, end, pos);
                let mut piece = run;
                piece.len = next - pos;
                if is_marked(ranges, start, end, pos) {
                    piece.background_color = Some(background);
                }
                let ghost so_far = result@;
                result.push(piece);
                assert(so_far + pieces(
                    run,
                    ranges@,
                    background,
                    start as int,
                    end as int,
                    pos as int,
                ) =~= result@ + pieces(
                    run,
                    ranges@,
                    background,
                    start as int,
                    end as int,
                    next as int,
                ));
                pos = next;
            }
            assert(result@ + Seq::<TextRun>::empty() =~= result@);
        } else {
            result.push(run);
        }
        start = end;
        i += 1;
    }
    assert(runs@.subrange(0, i as int) =~= runs@);
    result
}

proof fn lemma_pieces_len(
    run: TextRun,
    ranges: Seq<Range<usize>>,
    background: LineColor,
    start: int,
    end: int,
    pos: int,
)
    requires
        start <= pos <= end,
        end - start <= usize::MAX,
    ensures
        run_bytes(pieces(run, ranges, background, start, end, pos)) == end - pos,
    decreases end - pos,
{
    if pos < end {
        let next = first_cut(ranges, start, end, pos, ranges.len() as int);
        lemma_first_cut(ranges, start, end, pos, ranges.len() as int);
        lemma_pieces_len(run, ranges, background, start, end, next);
        let all = pieces(run, ranges, background, start, end, pos);
        let rest = pieces(run, ranges, background, start, end, next);
        assert(all =~= seq![all[0]] + rest);
        lemma_run_bytes_concat(seq![all[0]], rest);
        reveal_with_fuel(run_bytes, 2);
        assert(seq![all[0]].drop_last() =~= Seq::<TextRun>::empty());
    }
}

proof fn lemma_run_bytes_concat(a: Seq<TextRun>, b: Seq<TextRun>)
    ensures
        run_bytes(a + b) == run_bytes(a) + run_bytes(b),
    decreases b.len(),
{
    if b.len() == 0 {
        assert(a + b =~= a);
    } else {
        lemma_run_bytes_concat(a, b.drop_last());
        assert((a + b).drop_last() =~= a + b.drop_last());
    }
}

/// A background changes no lengths: the runs cover as many bytes as before.
pub proof fn law_background_keeps_bytes(
    runs: Seq<TextRun>,
    ranges: Seq<Range<usize>>,
    background: LineColor,
)
    requires
        run_bytes(runs) <= usize::MAX,
    ensures
        run_bytes(with_background(runs, ranges, background)) == run_bytes(runs),
    decreases runs.len(),
{
    if runs.len() > 0 {
        lemma_run_bytes_split(runs, runs.len() - 1);
        assert(runs.subrange(0, runs.len() - 1) =~= runs.drop_last());
        law_background_keeps_bytes(runs.drop_last(), ranges, background);
        let rest = with_background(runs.drop_last(), ranges, background);
        let start = run_bytes(runs.drop_last());
        let end = start + runs.last().len;
        if touched(ranges, start, end) {
            lemma_pieces_len(runs.last(), ranges, background, start, end, start);
            lemma_run_bytes_concat(
                rest,
                pieces(runs.last(), ranges, background, start, end, start),
            );
        } else {
            assert(rest.push(runs.last()).drop_last() =~= rest);
        }
    }
}

// ---------------------------------------------------------------------------
// The line
// ---------------------------------------------------------------------------

/// A line and everything that decides how it is shown.
pub struct Line {
    line: LineMarkers,
    rope: ropey::Rope,
    cursor_offset: usize,
    inline_styles: Vec<StyledRegion>,
    selection_range: Option<Range<usize>>,
    code_highlights: Vec<HighlightSpan>,
    base_path: Option<String>,
    substitution: Option<String>,
    /// Optional prefix text and runs to prepend before the line content.
    prefix: Option<(String, Vec<TextRun>)>,
    /// Byte ranges of GitHub refs on this line (for hover detection).
    github_ref_ranges: Vec<Range<usize>>,
    /// The currently hovered GitHub ref range, if on this line.
    hovered_ref_range: Option<Range<usize>>,
    /// When true, clicks do nothing (read-only mode).
    input_blocked: bool,
    /// Byte ranges within the line to highlight more strongly (e.g., changed words).
    inline_highlight_ranges: Vec<Range<usize>>,
    /// Whether those ranges are highlighted.
    inline_highlight: bool,
}

/// What a [`Line`] says.
pub struct LineModel {
    pub line: LineMarkersView,
    pub bytes: Seq<u8>,
    pub cursor: int,
    pub styles: Seq<RegionView>,
    pub selection: Option<(int, int)>,
    pub highlights: Seq<HighlightSpan>,
    pub base_path: Option<Seq<char>>,
    pub substitution: Option<Seq<char>>,
    pub prefix: Option<(Seq<char>, Seq<TextRun>)>,
    pub ref_ranges: Seq<Range<usize>>,
    pub hovered: Option<(int, int)>,
    pub input_blocked: bool,
    pub changed: Seq<Range<usize>>,
    pub show_changed: bool,
}

/// What an optional prefix says.
pub open spec fn prefix_if_any(p: Option<(String, Vec<TextRun>)>) -> Option<
    (Seq<char>, Seq<TextRun>),
> {
    match p {
        Some((text, runs)) => Some((text@, runs@)),
        None => None,
    }
}

impl View for Line {
    type V = LineModel;

    closed spec fn view(&self) -> LineModel {
        LineModel {
            line: self.line@,
            bytes: rope_bytes(self.rope),
            cursor: self.cursor_offset as int,
            styles: regions_view(self.inline_styles@),
            selection: range_pair(self.selection_range),
            highlights: self.code_highlights@,
            base_path: text_if_any(self.base_path),
            substitution: text_if_any(self.substitution),
            prefix: prefix_if_any(self.prefix),
            ref_ranges: self.github_ref_ranges@,
            hovered: range_pair(self.hovered_ref_range),
            input_blocked: self.input_blocked,
            changed: self.inline_highlight_ranges@,
            show_changed: self.inline_highlight,
        }
    }
}

/// The text that the markers of a line are replaced by.
pub open spec fn marker_text(m: LineMarkersView, bytes: Seq<u8>) -> Seq<char> {
    if forall|i: int| 0 <= i < m.markers.len() ==> is_silent((#[trigger] m.markers[i]).kind) {
        seq![]
    } else {
        blank_text(bytes, prefix_end(m.markers, m.start), m.end) + substitutions(m.markers)
    }
}

/// The first marker of a kind that `p` accepts.
pub open spec fn first_marker(ms: Seq<MarkerView>, p: spec_fn(MarkerKindView) -> bool) -> Option<
    MarkerView,
>
    decreases ms.len(),
{
    if ms.len() == 0 {
        None
    } else if p(ms[0].kind) {
        Some(ms[0])
    } else {
        first_marker(ms.drop_first(), p)
    }
}

/// The two ranges have a byte in common.
pub open spec fn share(a: (int, int), b: (int, int)) -> bool {
    a.0 < b.1 && a.1 > b.0
}

/// A run with a font and a color.
pub open spec fn plain_text_run(len: int, code_font: bool, color: LineColor) -> TextRun {
    TextRun {
        len: len as usize,
        code_font,
        bold: false,
        italic: false,
        color,
        background_color: None,
        underline: false,
        strikethrough: false,
    }
}

impl LineModel {
    /// The range of the line.
    pub open spec fn range(self) -> (int, int) {
        (self.line.start, self.line.end)
    }

    /// The cursor is on the line.
    pub open spec fn cursor_on_line(self) -> bool {
        cursor_inside(self.range(), self.cursor)
    }

    /// The selection reaches into a range.
    pub open spec fn in_selection(self, range: (int, int)) -> bool {
        match self.selection {
            Some(sel) => share(sel, range),
            None => false,
        }
    }

    /// The cursor or the selection is on the line.
    pub open spec fn is_active(self) -> bool {
        self.cursor_on_line() || self.in_selection(self.range())
    }

    /// The line is a fence.
    pub open spec fn is_fence(self) -> bool {
        any_kind(self.line.markers, |k: MarkerKindView| k is CodeBlockFence)
    }

    /// The line is a thematic break.
    pub open spec fn is_break(self) -> bool {
        any_kind(self.line.markers, |k: MarkerKindView| k is ThematicBreak)
    }

    /// The line belongs to a code block.
    pub open spec fn is_code_line(self) -> bool {
        self.line.in_code_block || self.is_fence()
    }

    /// The first heading marker.
    pub open spec fn heading_marker(self) -> Option<MarkerView> {
        first_marker(self.line.markers, |k: MarkerKindView| k is Heading)
    }

    /// The line is a heading.
    pub open spec fn is_heading(self) -> bool {
        self.heading_marker() is Some
    }

    /// The line has a checkbox.
    pub open spec fn has_checkbox(self) -> bool {
        first_kind(self.line.markers, |k: MarkerKindView| k is Checkbox) is Some
    }

    /// The span of the spacer markers.
    pub open spec fn spacers(self) -> Option<(int, int)> {
        span(self.line.markers, MarkerClass::Spacer)
    }

    /// What is behind the spacer markers. A checkbox is part of it.
    pub open spec fn content_range(self) -> (int, int) {
        match self.spacers() {
            Some((_, end)) => (end, self.line.end),
            None => self.range(),
        }
    }

    /// What is behind the quote markers and the indentation.
    pub open spec fn fence_range(self) -> (int, int) {
        match span(self.line.markers, MarkerClass::Prefix) {
            Some((_, end)) => (end, self.line.end),
            None => self.range(),
        }
    }

    /// The level of a heading whose marker is longer than its `#`s.
    pub open spec fn display_heading_level(self) -> Option<u8> {
        match self.heading_marker() {
            Some(m) => if m.end - m.start > m.kind->Heading_0 {
                Some(m.kind->Heading_0)
            } else {
                None
            },
            None => None,
        }
    }

    /// The URL of the image that the line is: it has no markers, and one style, which is
    /// an image that reads like the whole line (but for trailing whitespace).
    pub open spec fn standalone_image_url(self) -> Option<Seq<char>> {
        if self.line.markers.len() == 0 && self.styles.len() == 1 && self.styles[0].is_image
            && trim_right(chars_of(self.bytes, self.line.start, self.line.end)) == chars_of(
            self.bytes,
            self.styles[0].full.0,
            self.styles[0].full.1,
        ) {
            self.styles[0].link_url
        } else {
            None
        }
    }

    /// The color of the first of the captures from `i` on that holds all of a range.
    pub open spec fn capture(self, start: int, end: int, i: int) -> Option<LineColor>
        decreases self.highlights.len() - i,
    {
        if i < 0 || i >= self.highlights.len() {
            None
        } else if self.highlights[i].range.start <= start && end <= self.highlights[i].range.end {
            Some(LineColor::Capture(self.highlights[i].highlight_id))
        } else {
            self.capture(start, end, i + 1)
        }
    }
}

fn text_run(len: usize, code_font: bool, color: LineColor) -> (r: TextRun)
    ensures
        r == plain_text_run(len as int, code_font, color),
{
    TextRun {
        len,
        code_font,
        bold: false,
        italic: false,
        color,
        background_color: None,
        underline: false,
        strikethrough: false,
    }
}

impl Line {
    /// A line. Markers that are replaced by a text show it before the content.
    pub fn new(
        line: LineMarkers,
        rope: ropey::Rope,
        cursor_offset: usize,
        inline_styles: Vec<StyledRegion>,
        selection_range: Option<Range<usize>>,
        code_highlights: Vec<HighlightSpan>,
        base_path: Option<String>,
        github_ref_ranges: Vec<Range<usize>>,
        hovered_ref_range: Option<Range<usize>>,
        input_blocked: bool,
        inline_highlight_ranges: Vec<Range<usize>>,
        inline_highlight: bool,
    ) -> (r: Self)
        ensures
            r@ == (LineModel {
                line: line@,
                bytes: rope_bytes(rope),
                cursor: cursor_offset as int,
                styles: regions_view(inline_styles@),
                selection: range_pair(selection_range),
                highlights: code_highlights@,
                base_path: text_if_any(base_path),
                substitution: if marker_text(line@, rope_bytes(rope)).len() == 0 {
                    None
                } else {
                    Some(marker_text(line@, rope_bytes(rope)))
                },
                prefix: None,
                ref_ranges: github_ref_ranges@,
                hovered: range_pair(hovered_ref_range),
                input_blocked,
                changed: inline_highlight_ranges@,
                show_changed: inline_highlight,
            }),
    {
        let s = line.substitution_rope(&rope);
        assert(s@ == marker_text(line@, rope_bytes(rope)));
        let substitution = if s.as_str().is_empty() {
            None
        } else {
            Some(s)
        };
        Line {
            line,
            rope,
            cursor_offset,
            inline_styles,
            selection_range,
            code_highlights,
            base_path,
            substitution,
            prefix: None,
            github_ref_ranges,
            hovered_ref_range,
            input_blocked,
            inline_highlight_ranges,
            inline_highlight,
        }
    }

    /// Add a prefix with styled text runs before the line content.
    pub fn with_prefix(self, text: String, runs: Vec<TextRun>) -> (r: Self)
        ensures
            r@ == (LineModel { prefix: Some((text@, runs@)), ..self@ }),
    {
        Line { prefix: Some((text, runs)), ..self }
    }

    /// The text in a byte range.
    fn slice(&self, start: usize, end: usize) -> (r: String)
        requires
            is_slice(self@.bytes, start as int, end as int),
        ensures
            r@ == chars_of(self@.bytes, start as int, end as int),
            encode_utf8(r@).len() == end - start,
    {
        let s = rope_slice(&self.rope, start, end);
        proof {
            encode_utf8_decode_utf8(s@);
        }
        s
    }

    /// Whether the cursor is on the line.
    pub fn cursor_on_line(&self) -> (r: bool)
        ensures
            r == self@.cursor_on_line(),
    {
        cursor_in(&self.line.range, self.cursor_offset)
    }

    /// Whether the selection reaches into a marker.
    pub fn marker_in_selection(&self, marker_range: &Range<usize>) -> (r: bool)
        ensures
            r == self@.in_selection((marker_range.start as int, marker_range.end as int)),
    {
        match &self.selection_range {
            Some(sel) => sel.start < marker_range.end && sel.end > marker_range.start,
            None => false,
        }
    }

    /// Whether the selection reaches into the line.
    pub fn selection_on_line(&self) -> (r: bool)
        ensures
            r == self@.in_selection(self@.range()),
    {
        self.marker_in_selection(&self.line.range)
    }

    /// Whether the line belongs to a code block.
    pub fn is_code_block_line(&self) -> (r: bool)
        ensures
            r == self@.is_code_line(),
    {
        self.line.in_code_block || self.line.is_fence()
    }

    /// The URL of the image that the line is, also when the cursor is on the line.
    pub fn standalone_image_url(&self) -> (r: Option<String>)
        requires
            self@.line.markers.len() == 0 && self@.styles.len() == 1 && self@.styles[0].is_image
                ==> is_slice(self@.bytes, self@.line.start, self@.line.end) && is_slice(
                self@.bytes,
                self@.styles[0].full.0,
                self@.styles[0].full.1,
            ),
        ensures
            text_if_any(r) == self@.standalone_image_url(),
    {
        if self.line.markers.len() != 0 || self.inline_styles.len() != 1 {
            return None;
        }
        let style = &self.inline_styles[0];
        assert(self@.styles[0] == style@);
        if !style.is_image {
            return None;
        }
        let line_content = self.slice(self.line.range.start, self.line.range.end);
        let line_content = trim_end(line_content.as_str());
        let image_text = self.slice(style.full_range.start, style.full_range.end);
        if !str_eq(line_content.as_str(), image_text.as_str()) {
            return None;
        }
        copy_text(&style.link_url)
    }

    /// What is behind the spacer markers. Checkbox markers are not among them: "[ ] " is
    /// part of the content and rendered inline, which gives correct wrap indent.
    pub fn content_range(&self) -> (r: Range<usize>)
        ensures
            (r.start as int, r.end as int) == self@.content_range(),
    {
        match self.line.marker_range() {
            Some(marker_range) => marker_range.end..self.line.range.end,
            None => self.line.range.start..self.line.range.end,
        }
    }

    /// What is behind the prefix markers (Indent, BlockQuote).
    fn fence_range(&self) -> (r: Range<usize>)
        ensures
            (r.start as int, r.end as int) == self@.fence_range(),
    {
        match self.line.prefix_marker_range() {
            Some(marker_range) => marker_range.end..self.line.range.end,
            None => self.line.range.start..self.line.range.end,
        }
    }

    /// The first heading marker.
    fn heading_marker(&self) -> (r: Option<&Marker>)
        ensures
            match r {
                Some(m) => self@.heading_marker() == Some(m@) && m.kind is Heading,
                None => self@.heading_marker() is None,
            },
    {
        let ghost ms = self@.line.markers;
        let ghost p = |k: MarkerKindView| k is Heading;
        let mut i: usize = 0;
        assert(ms.subrange(0, ms.len() as int) =~= ms);
        while i < self.line.markers.len()
            invariant
                i <= self.line.markers@.len(),
                ms == self@.line.markers,
                p == |k: MarkerKindView| k is Heading,
                first_marker(ms, p) == first_marker(ms.subrange(i as int, ms.len() as int), p),
            decreases self.line.markers@.len() - i,
        {
            let ghost from = ms.subrange(i as int, ms.len() as int);
            assert(from[0] == self.line.markers@[i as int]@);
            assert(from.drop_first() =~= ms.subrange(i + 1, ms.len() as int));
            if matches!(self.line.markers[i].kind, MarkerKind::Heading(_)) {
                return Some(&self.line.markers[i]);
            }
            i += 1;
        }
        None
    }

    /// Whether the line is a heading.
    fn is_heading(&self) -> (r: bool)
        ensures
            r == self@.is_heading(),
    {
        self.heading_marker().is_some()
    }

    /// Check if this line should be rendered as a heading.
    /// Returns the heading level only if the marker includes a space after the `#`.
    /// This prevents `#` alone from being rendered as a large heading while typing.
    pub fn display_heading_level(&self) -> (r: Option<u8>)
        ensures
            r == self@.display_heading_level(),
    {
        match self.heading_marker() {
            Some(m) => {
                if let MarkerKind::Heading(level) = &m.kind {
                    // For just "#" alone, the marker length equals the heading level. For
                    // "# " or "## ", it is level + 1 (includes the space).
                    if m.range.start <= m.range.end && m.range.end - m.range.start > *level as usize {
                        return Some(*level);
                    }
                }
                None
            },
            None => None,
        }
    }

    /// The color of the first capture that holds all of a range.
    pub fn get_highlight_color_for_range(&self, start: usize, end: usize) -> (r: Option<LineColor>)
        ensures
            r == self@.capture(start as int, end as int, 0),
    {
        let mut i: usize = 0;
        while i < self.code_highlights.len()
            invariant
                i <= self.code_highlights@.len(),
                self@.capture(start as int, end as int, 0) == self@.capture(
                    start as int,
                    end as int,
                    i as int,
                ),
            decreases self.code_highlights@.len() - i,
        {
            let h = &self.code_highlights[i];
            if h.range.start <= start && end <= h.range.end {
                return Some(LineColor::Capture(h.highlight_id));
            }
            i += 1;
        }
        None
    }
}

// ---------------------------------------------------------------------------
// Styled content
// ---------------------------------------------------------------------------

/// A display_text region that is currently shown in collapsed form.
/// Used for click position mapping when the user clicks on shortened text.
#[derive(Debug, Clone, PartialEq)]
pub struct CollapsedDisplayText {
    /// Visual range in the display string (byte offsets)
    pub visual_range: Range<usize>,
    /// Buffer range of the full content
    pub buffer_range: Range<usize>,
    /// The shortened display text being shown
    pub display_text: String,
    /// The full buffer text (e.g., the full URL)
    pub buffer_text: String,
}

/// What a [`CollapsedDisplayText`] says.
pub struct CollapsedView {
    pub visual: (int, int),
    pub buffer: (int, int),
    pub display_text: Seq<char>,
    pub buffer_text: Seq<char>,
}

impl View for CollapsedDisplayText {
    type V = CollapsedView;

    open spec fn view(&self) -> CollapsedView {
        CollapsedView {
            visual: (self.visual_range.start as int, self.visual_range.end as int),
            buffer: (self.buffer_range.start as int, self.buffer_range.end as int),
            display_text: self.display_text@,
            buffer_text: self.buffer_text@,
        }
    }
}

impl CollapsedDisplayText {
    /// Map a place in the full text to a buffer offset. `index` is the byte of the full text
    /// that is drawn at the place's x-offset; `None` where nothing is, which counts as the
    /// start.
    pub fn map_x_to_buffer_offset(&self, index: Option<usize>) -> (r: usize)
        requires
            index matches Some(i) ==> self@.buffer.0 + i <= usize::MAX,
        ensures
            r == self@.buffer.0 + (match index {
                Some(i) => i as int,
                None => 0,
            }),
    {
        match index {
            Some(i) => self.buffer_range.start + i,
            None => self.buffer_range.start,
        }
    }
}

/// What some collapsed regions say.
pub open spec fn collapsed_view(cs: Seq<CollapsedDisplayText>) -> Seq<CollapsedView> {
    cs.map_values(|c: CollapsedDisplayText| c@)
}

/// A styled text: its characters, its runs, and the regions in it that are shown in a
/// shorter form.
#[derive(Debug)]
pub struct StyledContent {
    pub text: String,
    pub runs: Vec<TextRun>,
    pub collapsed: Vec<CollapsedDisplayText>,
}

/// What a [`StyledContent`] says.
pub struct StyledView {
    pub text: Seq<char>,
    pub runs: Seq<TextRun>,
    pub collapsed: Seq<CollapsedView>,
}

impl View for StyledContent {
    type V = StyledView;

    open spec fn view(&self) -> StyledView {
        StyledView {
            text: self.text@,
            runs: self.runs@,
            collapsed: collapsed_view(self.collapsed@),
        }
    }
}

/// The length of a text in bytes.
pub open spec fn byte_count(text: Seq<char>) -> int {
    encode_utf8(text).len() as int
}

impl StyledView {
    /// With some text and its run behind it.
    pub open spec fn then_run(self, text: Seq<char>, run: TextRun) -> StyledView {
        StyledView { text: self.text + text, runs: self.runs.push(run), ..self }
    }

    /// With some text in the code font behind it, if it is not empty.
    pub open spec fn then_code(self, text: Seq<char>, color: LineColor) -> StyledView {
        if text.len() == 0 {
            self
        } else {
            self.then_run(text, plain_text_run(byte_count(text), true, color))
        }
    }
}

/// The runs cover the text.
pub open spec fn balanced(s: StyledView) -> bool {
    run_bytes(s.runs) == byte_count(s.text)
}

/// Nothing.
pub open spec fn empty_styled() -> StyledView {
    StyledView { text: seq![], runs: seq![], collapsed: seq![] }
}

/// Where a checkbox in a text starts and ends: from the first `[` to one byte behind the
/// first `]`, or to the end of the text. The length of the text where there is no `[`.
pub open spec fn checkbox_span(bytes: Seq<u8>) -> (int, int) {
    let close = find_byte(bytes, 0x5d, 0);
    (find_byte(bytes, 0x5b, 0), min2(close + 2, bytes.len() as int))
}

/// How many characters from `i` on are `c`.
pub open spec fn same_chars(text: Seq<char>, c: char, i: int) -> int
    decreases text.len() - i,
{
    if 0 <= i < text.len() && text[i] == c {
        1 + same_chars(text, c, i + 1)
    } else {
        0
    }
}

/// How many backticks or tildes a text starts with.
pub open spec fn fence_len(text: Seq<char>) -> int {
    if text.len() > 0 && (text[0] == '`' || text[0] == '~') {
        same_chars(text, text[0], 0)
    } else {
        0
    }
}

/// Strictly ascending numbers with `x` among them.
pub open spec fn insert_cut(sorted: Seq<int>, x: int) -> Seq<int>
    decreases sorted.len(),
{
    if sorted.len() == 0 || sorted.last() < x {
        sorted.push(x)
    } else if sorted.last() == x {
        sorted
    } else {
        insert_cut(sorted.drop_last(), x).push(sorted.last())
    }
}

/// The numbers of `lo..=hi` among `raw`, strictly ascending.
pub open spec fn cut_points(raw: Seq<int>, lo: int, hi: int) -> Seq<int>
    decreases raw.len(),
{
    if raw.len() == 0 {
        seq![]
    } else {
        let rest = cut_points(raw.drop_last(), lo, hi);
        if lo <= raw.last() <= hi {
            insert_cut(rest, raw.last())
        } else {
            rest
        }
    }
}

/// A region hides the delimiter `from..to`, clipped to the content, and `start..end` is
/// part of it.
pub open spec fn within(start: int, end: int, from: int, to: int) -> bool {
    to > from && start >= from && end <= to
}

impl LineModel {
    /// What the markers are replaced by, with a checkbox in it in the link color.
    pub open spec fn prefix_styled(self) -> StyledView {
        match self.substitution {
            None => empty_styled(),
            Some(text) => {
                let bytes = encode_utf8(text);
                let (s, e) = checkbox_span(bytes);
                if text.len() == 0 {
                    empty_styled()
                } else if self.has_checkbox() && s < bytes.len() {
                    empty_styled().then_code(chars_of(bytes, 0, s), LineColor::Text).then_run(
                        chars_of(bytes, s, e),
                        plain_text_run(e - s, true, LineColor::Link),
                    ).then_code(chars_of(bytes, e, bytes.len() as int), LineColor::Text)
                } else {
                    empty_styled().then_code(text, LineColor::Text)
                }
            },
        }
    }

    /// The replaced markers can be cut round a checkbox.
    pub open spec fn prefix_cuts(self) -> bool {
        match self.substitution {
            None => true,
            Some(text) => {
                let bytes = encode_utf8(text);
                let (s, e) = checkbox_span(bytes);
                self.has_checkbox() && s < bytes.len() ==> is_slice(bytes, s, e)
            },
        }
    }

    /// The content that is styled: a heading shows its marker too.
    pub open spec fn styled_range(self) -> (int, int) {
        if self.is_heading() {
            self.range()
        } else {
            self.content_range()
        }
    }

    /// The cursor is in a region.
    pub open spec fn inside(self, r: RegionView) -> bool {
        cursor_inside(r.full, self.cursor)
    }

    /// Where a region cuts the content.
    pub open spec fn region_cuts(self, r: RegionView) -> Seq<int> {
        let (cs, ce) = self.styled_range();
        let outer = seq![max2(r.full.0, cs), min2(r.full.1, ce)];
        (if r.checkbox is Some {
            outer
        } else {
            seq![]
        }) + (if r.full.1 > cs && r.full.0 < ce {
            if self.inside(r) {
                outer
            } else {
                seq![
                    max2(r.full.0, cs),
                    max2(r.content.0, cs),
                    min2(r.content.1, ce),
                    min2(r.full.1, ce),
                ]
            }
        } else {
            seq![]
        })
    }

    /// Where the first `k` regions cut the content.
    pub open spec fn regions_cuts(self, k: int) -> Seq<int>
        decreases k,
    {
        if k <= 0 {
            seq![]
        } else {
            self.regions_cuts(k - 1) + self.region_cuts(self.styles[k - 1])
        }
    }

    /// Where the first `k` captures cut the content.
    pub open spec fn capture_cuts(self, k: int) -> Seq<int>
        decreases k,
    {
        if k <= 0 {
            seq![]
        } else {
            let (cs, ce) = self.styled_range();
            let h = self.highlights[k - 1].range;
            self.capture_cuts(k - 1) + (if h.end > cs && h.start < ce {
                seq![max2(h.start as int, cs), min2(h.end as int, ce)]
            } else {
                seq![]
            })
        }
    }

    /// Where the marker of a heading cuts the content.
    pub open spec fn heading_cuts(self) -> Seq<int> {
        match self.spacers() {
            Some((s, e)) => if self.is_heading() {
                seq![s, e]
            } else {
                seq![]
            },
            None => seq![],
        }
    }

    /// The places where the style of the content may change, in order.
    pub open spec fn cut_points(self) -> Seq<int> {
        let (cs, ce) = self.styled_range();
        cut_points(
            seq![cs, ce] + self.heading_cuts() + self.regions_cuts(self.styles.len() as int)
                + self.capture_cuts(self.highlights.len() as int),
            cs,
            ce,
        )
    }

    /// A region hides `start..end`: it is part of a delimiter.
    pub open spec fn region_hides(self, r: RegionView, start: int, end: int) -> bool {
        let (cs, ce) = self.styled_range();
        !self.inside(r) && (within(start, end, max2(r.full.0, cs), min2(r.content.0, ce))
            || within(start, end, max2(r.content.1, cs), min2(r.full.1, ce)))
    }

    /// The marker of a heading is hidden while neither the cursor nor the selection is on
    /// the line.
    pub open spec fn heading_hides(self, start: int, end: int) -> bool {
        match self.spacers() {
            Some((s, e)) => self.is_heading() && !self.is_active() && start >= s && end <= e,
            None => false,
        }
    }

    /// `start..end` is not shown.
    pub open spec fn span_hidden(self, start: int, end: int) -> bool {
        self.heading_hides(start, end) || exists|i: int|
            0 <= i < self.styles.len() && #[trigger] self.region_hides(
                self.styles[i],
                start,
                end,
            )
    }

    /// The first region from `i` on that is exactly `start..end` and shown by another
    /// text. A region that the cursor is in is not.
    pub open spec fn shown_region(self, start: int, end: int, i: int) -> Option<RegionView>
        decreases self.styles.len() - i,
    {
        if i < 0 || i >= self.styles.len() {
            None
        } else {
            let r = self.styles[i];
            if r.display_text is Some && r.full == (start, end) && !self.inside(r) {
                Some(r)
            } else {
                self.shown_region(start, end, i + 1)
            }
        }
    }

    /// The style of a region holds of `start..end`: of the whole region while the cursor
    /// is in it, else of its content.
    pub open spec fn styles_span(self, r: RegionView, start: int, end: int) -> bool {
        let s = if self.inside(r) {
            r.full
        } else {
            r.content
        };
        s.0 <= start && end <= s.1
    }

    /// The styles of the first `k` regions that hold of `start..end`, together.
    pub open spec fn flags(self, start: int, end: int, k: int) -> SpanFlags
        decreases k,
    {
        if k <= 0 {
            SpanFlags {
                bold: false,
                italic: false,
                code: false,
                strikethrough: false,
                link: false,
                checkbox: None,
            }
        } else {
            let f = self.flags(start, end, k - 1);
            let r = self.styles[k - 1];
            if self.styles_span(r, start, end) {
                SpanFlags {
                    bold: f.bold || r.style.bold,
                    italic: f.italic || r.style.italic,
                    code: f.code || r.style.code,
                    strikethrough: f.strikethrough || r.style.strikethrough,
                    link: f.link || r.link_url is Some,
                    checkbox: if f.checkbox is Some {
                        f.checkbox
                    } else {
                        r.checkbox
                    },
                }
            } else {
                f
            }
        }
    }

    /// The range of the first ordered list marker.
    pub open spec fn number_range(self) -> Option<(int, int)> {
        match first_marker(self.line.markers, |k: MarkerKindView| is_numbered(k)) {
            Some(m) => Some((m.start, m.end)),
            None => None,
        }
    }

    /// The color of a span: struck-through text is muted; checkboxes, links, captures
    /// and code have their own.
    pub open spec fn span_color(self, f: SpanFlags, start: int, end: int) -> LineColor {
        if f.strikethrough {
            LineColor::Border
        } else if f.checkbox == Some(true) {
            LineColor::CheckboxChecked
        } else if f.checkbox == Some(false) {
            LineColor::CheckboxUnchecked
        } else if f.link {
            LineColor::Link
        } else if self.capture(start, end, 0) is Some {
            self.capture(start, end, 0)->0
        } else if f.code && !self.is_code_line() {
            LineColor::Code
        } else {
            LineColor::Text
        }
    }

    /// The run of a span.
    pub open spec fn span_run(self, start: int, end: int) -> TextRun {
        let f = self.flags(start, end, self.styles.len() as int);
        TextRun {
            len: (end - start) as usize,
            code_font: f.code || self.is_code_line() || (match self.number_range() {
                Some(r) => share(r, (start, end)),
                None => false,
            }) || f.checkbox is Some,
            bold: f.bold || self.display_heading_level() is Some,
            italic: f.italic,
            color: self.span_color(f, start, end),
            background_color: None,
            underline: f.link,
            strikethrough: f.strikethrough,
        }
    }

    /// A styled text with the span `start..end` of the content behind it.
    pub open spec fn with_span(self, s: StyledView, start: int, end: int) -> StyledView {
        if self.span_hidden(start, end) {
            s
        } else {
            match self.shown_region(start, end, 0) {
                Some(r) => {
                    let text = r.display_text->0;
                    StyledView {
                        collapsed: s.collapsed.push(
                            CollapsedView {
                                visual: (
                                    byte_count(s.text),
                                    byte_count(s.text) + byte_count(text),
                                ),
                                buffer: r.full,
                                display_text: text,
                                buffer_text: chars_of(self.bytes, start, end),
                            },
                        ),
                        ..s.then_run(
                            text,
                            TextRun {
                                underline: true,
                                ..plain_text_run(byte_count(text), false, LineColor::Link)
                            },
                        )
                    }
                },
                None => s.then_run(chars_of(self.bytes, start, end), self.span_run(start, end)),
            }
        }
    }

    /// A styled text with the spans between the first `k + 1` cut points behind it.
    pub open spec fn with_spans(self, s: StyledView, cuts: Seq<int>, k: int) -> StyledView
        decreases k,
    {
        if k <= 0 {
            s
        } else {
            self.with_span(self.with_spans(s, cuts, k - 1), cuts[k - 1], cuts[k])
        }
    }

    /// A fence line: the fence and its info string.
    pub open spec fn fence_styled(self, s: StyledView) -> StyledView {
        let text = chars_of(self.bytes, self.fence_range().0, self.fence_range().1);
        let n = fence_len(text);
        s.then_code(text.subrange(0, n), LineColor::Fence).then_code(
            text.subrange(n, text.len() as int),
            LineColor::FenceLang,
        )
    }

    /// A thematic break: its text, which shows only while the line is active.
    pub open spec fn break_styled(self, s: StyledView) -> StyledView {
        s.then_run(
            chars_of(self.bytes, self.line.start, self.line.end),
            plain_text_run(
                self.line.end - self.line.start,
                false,
                if self.is_active() {
                    LineColor::Text
                } else {
                    LineColor::Transparent
                },
            ),
        )
    }

    /// The styled content of the line.
    pub open spec fn styled(self) -> StyledView {
        let s = self.prefix_styled();
        let (cs, ce) = self.styled_range();
        if self.is_fence() {
            self.fence_styled(s)
        } else if self.is_break() {
            self.break_styled(s)
        } else if cs >= ce {
            s
        } else {
            self.with_spans(s, self.cut_points(), self.cut_points().len() - 1)
        }
    }

    /// What is shown of the line is cut between characters.
    pub open spec fn cuts(self) -> bool {
        &&& self.prefix_cuts()
        &&& if self.is_fence() {
            is_slice(self.bytes, self.fence_range().0, self.fence_range().1)
        } else if self.is_break() {
            is_slice(self.bytes, self.line.start, self.line.end)
        } else {
            forall|k: int|
                1 <= k < self.cut_points().len() && !self.span_hidden(
                    self.cut_points()[k - 1],
                    #[trigger] self.cut_points()[k],
                ) ==> is_slice(self.bytes, self.cut_points()[k - 1], self.cut_points()[k])
        }
    }
}

/// The styles that hold of a span of text.
#[derive(Clone, Copy)]
pub struct SpanFlags {
    pub bold: bool,
    pub italic: bool,
    pub code: bool,
    pub strikethrough: bool,
    pub link: bool,
    pub checkbox: Option<bool>,
}

/// A marker with a number.
pub open spec fn is_numbered(k: MarkerKindView) -> bool {
    match k {
        MarkerKindView::ListItem { ordered, .. } => ordered,
        _ => false,
    }
}

fn push_text(s: &mut StyledContent, text: &str, run: TextRun)
    requires
        balanced(old(s)@),
        run.len == byte_count(text@),
    ensures
        final(s)@ == old(s)@.then_run(text@, run),
        balanced(final(s)@),
{
    let ghost before = s@;
    s.text.append(text);
    s.runs.push(run);
    proof {
        lemma_encode_concat(before.text, text@);
        assert(s@.runs.drop_last() =~= before.runs);
    }
}

fn push_code(s: &mut StyledContent, text: &str, color: LineColor)
    requires
        balanced(old(s)@),
    ensures
        final(s)@ == old(s)@.then_code(text@, color),
        balanced(final(s)@),
{
    if !text.is_empty() {
        push_text(s, text, text_run(byte_len(text), true, color));
    }
}

/// The number is among the sorted ones, if it is in the range.
spec fn cut_added(sorted: Seq<int>, x: int, lo: int, hi: int) -> Seq<int> {
    if lo <= x <= hi {
        insert_cut(sorted, x)
    } else {
        sorted
    }
}

fn add_cut(v: &mut Vec<usize>, x: usize, lo: usize, hi: usize)
    ensures
        ints_of(final(v)@) == cut_added(ints_of(old(v)@), x as int, lo as int, hi as int),
{
    if x < lo || x > hi {
        return;
    }
    let ghost before = ints_of(v@);
    let mut at = v.len();
    assert(before.subrange(0, at as int) =~= before);
    assert(insert_cut(before, x as int) + before.subrange(at as int, before.len() as int)
        =~= insert_cut(before, x as int));
    while at > 0 && v[at - 1] > x
        invariant
            at <= v@.len(),
            v@ == old(v)@,
            before == ints_of(v@),
            insert_cut(before, x as int) == insert_cut(before.subrange(0, at as int), x as int)
                + before.subrange(at as int, before.len() as int),
        decreases at,
    {
        proof {
            let head = before.subrange(0, at as int);
            assert(head.last() == v@[at - 1]);
            assert(head.drop_last() =~= before.subrange(0, at - 1));
            assert(insert_cut(head, x as int) + before.subrange(at as int, before.len() as int)
                =~= insert_cut(head.drop_last(), x as int) + before.subrange(
                at - 1,
                before.len() as int,
            ));
        }
        at -= 1;
    }
    let ghost head = before.subrange(0, at as int);
    if at > 0 && v[at - 1] == x {
        assert(head.last() == v@[at - 1]);
        assert(head + before.subrange(at as int, before.len() as int) =~= before);
        return;
    }
    proof {
        if at > 0 {
            assert(head.last() == v@[at - 1]);
        }
        assert(insert_cut(head, x as int) == head.push(x as int));
    }
    v.insert(at, x);
    assert(ints_of(v@) =~= head.push(x as int) + before.subrange(at as int, before.len() as int));
}

proof fn lemma_cut_points_push(raw: Seq<int>, x: int, lo: int, hi: int)
    ensures
        cut_points(raw.push(x), lo, hi) == cut_added(cut_points(raw, lo, hi), x, lo, hi),
{
    assert(raw.push(x).drop_last() =~= raw);
}

/// Adds two places.
fn add_cuts(v: &mut Vec<usize>, a: usize, b: usize, lo: usize, hi: usize, Ghost(raw): Ghost<Seq<int>>)
    requires
        ints_of(old(v)@) == cut_points(raw, lo as int, hi as int),
    ensures
        ints_of(final(v)@) == cut_points(raw + seq![a as int, b as int], lo as int, hi as int),
{
    add_cut(v, a, lo, hi);
    add_cut(v, b, lo, hi);
    proof {
        lemma_cut_points_push(raw, a as int, lo as int, hi as int);
        lemma_cut_points_push(raw.push(a as int), b as int, lo as int, hi as int);
        assert(raw + seq![a as int, b as int] =~= raw.push(a as int).push(b as int));
    }
}

fn larger(a: usize, b: usize) -> (r: usize)
    ensures
        r == max2(a as int, b as int),
{
    if a <= b {
        b
    } else {
        a
    }
}

fn smaller(a: usize, b: usize) -> (r: usize)
    ensures
        r == min2(a as int, b as int),
{
    if a <= b {
        a
    } else {
        b
    }
}

impl Line {
    /// What the markers are replaced by, styled.
    fn prefix_styled(&self) -> (s: StyledContent)
        requires
            self@.prefix_cuts(),
        ensures
            s@ == self@.prefix_styled(),
            balanced(s@),
    {
        let mut s = StyledContent { text: String::new(), runs: Vec::new(), collapsed: Vec::new() };
        assert(s@.text =~= Seq::<char>::empty());
        assert(s@.collapsed =~= Seq::<CollapsedView>::empty());
        if let Some(prefix) = &self.substitution {
            let prefix = prefix.as_str();
            let bytes = prefix.as_bytes();
            let len = bytes.len();
            let start = position_of(bytes, 0x5b, 0);
            if self.line.checkbox().is_some() && start < len {
                let close = position_of(bytes, 0x5d, 0);
                let end = if close < len - 1 {
                    close + 2
                } else {
                    len
                };
                proof {
                    encode_utf8_valid_utf8(prefix@);
                    is_char_boundary_start_end_of_seq(bytes@);
                    assert(end == checkbox_span(bytes@).1);
                    if prefix@.len() == 0 {
                        assert(prefix@ =~= Seq::<char>::empty());
                    }
                }
                let before = slice(prefix, 0, start);
                let checkbox = slice(prefix, start, end);
                let after = slice(prefix, end, len);
                push_code(&mut s, before, LineColor::Text);
                push_text(&mut s, checkbox, text_run(end - start, true, LineColor::Link));
                push_code(&mut s, after, LineColor::Text);
            } else {
                push_code(&mut s, prefix, LineColor::Text);
            }
        }
        s
    }

    /// A fence line: the fence and its info string.
    fn push_fence(&self, s: &mut StyledContent)
        requires
            is_slice(self@.bytes, self@.fence_range().0, self@.fence_range().1),
            balanced(old(s)@),
        ensures
            final(s)@ == self@.fence_styled(old(s)@),
            balanced(final(s)@),
    {
        let range = self.fence_range();
        let text = self.slice(range.start, range.end);
        let chars = chars_vec(text.as_str());
        let n = chars.len();
        let mut k: usize = 0;
        // Fence can be ``` or ~~~
        if n > 0 && (chars[0] == '`' || chars[0] == '~') {
            let c = chars[0];
            while k < n && chars[k] == c
                invariant
                    n == chars@.len(),
                    k <= n,
                    same_chars(chars@, c, 0) == k + same_chars(chars@, c, k as int),
                decreases n - k,
            {
                k += 1;
            }
        }
        assert(k == fence_len(chars@));
        let fence = string_of(&chars, 0, k);
        let language = string_of(&chars, k, n);
        push_code(s, fence.as_str(), LineColor::Fence);
        push_code(s, language.as_str(), LineColor::FenceLang);
    }

    /// The content that is styled.
    fn styled_range(&self) -> (r: Range<usize>)
        ensures
            (r.start as int, r.end as int) == self@.styled_range(),
    {
        if self.is_heading() {
            self.line.range.start..self.line.range.end
        } else {
            self.content_range()
        }
    }

    /// Whether the cursor is in a region.
    fn inside(&self, r: &StyledRegion) -> (b: bool)
        ensures
            b == self@.inside(r@),
    {
        cursor_in(&r.full_range, self.cursor_offset)
    }

    /// The places where the style of the content may change, in order.
    fn cut_points(&self) -> (r: Vec<usize>)
        ensures
            ints_of(r@) == self@.cut_points(),
    {
        let ghost m = self@;
        let content = self.styled_range();
        let cs = content.start;
        let ce = content.end;
        let ghost lo = cs as int;
        let ghost hi = ce as int;
        let mut v: Vec<usize> = Vec::new();
        assert(ints_of(v@) =~= cut_points(Seq::<int>::empty(), lo, hi));
        let ghost ends = seq![lo, hi];
        let ghost base = ends + m.heading_cuts();
        add_cuts(&mut v, cs, ce, cs, ce, Ghost(Seq::<int>::empty()));
        assert(Seq::<int>::empty() + ends =~= ends);
        assert(ends + Seq::<int>::empty() =~= ends);
        if self.is_heading() {
            if let Some(marker) = self.line.marker_range() {
                add_cuts(&mut v, marker.start, marker.end, cs, ce, Ghost(ends));
            }
        }
        let mut i: usize = 0;
        assert(base + m.regions_cuts(0) =~= base);
        while i < self.inline_styles.len()
            invariant
                m == self@,
                (cs as int, ce as int) == m.styled_range(),
                i <= self.inline_styles@.len(),
                ints_of(v@) == cut_points(base + m.regions_cuts(i as int), cs as int, ce as int),
            decreases self.inline_styles@.len() - i,
        {
            assert(m.styles[i as int] == self.inline_styles@[i as int]@);
            let ghost raw = base + m.regions_cuts(i as int);
            self.add_region_cuts(&mut v, &self.inline_styles[i], cs, ce, Ghost(raw));
            assert(raw + m.region_cuts(m.styles[i as int]) =~= base + m.regions_cuts(i + 1));
            i += 1;
        }
        let ghost styled = base + m.regions_cuts(i as int);
        let mut j: usize = 0;
        assert(styled + m.capture_cuts(0) =~= styled);
        while j < self.code_highlights.len()
            invariant
                m == self@,
                (cs as int, ce as int) == m.styled_range(),
                j <= self.code_highlights@.len(),
                ints_of(v@) == cut_points(styled + m.capture_cuts(j as int), cs as int, ce as int),
            decreases self.code_highlights@.len() - j,
        {
            let h = &self.code_highlights[j];
            let ghost raw = styled + m.capture_cuts(j as int);
            if h.range.end > cs && h.range.start < ce {
                let a = larger(h.range.start, cs);
                let b = smaller(h.range.end, ce);
                add_cuts(&mut v, a, b, cs, ce, Ghost(raw));
                assert(raw + seq![a as int, b as int] =~= styled + m.capture_cuts(j + 1));
            } else {
                assert(raw =~= styled + m.capture_cuts(j + 1));
            }
            j += 1;
        }
        v
    }

    /// Adds the places where a region cuts the content.
    fn add_region_cuts(
        &self,
        v: &mut Vec<usize>,
        region: &StyledRegion,
        cs: usize,
        ce: usize,
        Ghost(raw): Ghost<Seq<int>>,
    )
        requires
            (cs as int, ce as int) == self@.styled_range(),
            ints_of(old(v)@) == cut_points(raw, cs as int, ce as int),
        ensures
            ints_of(final(v)@) == cut_points(
                raw + self@.region_cuts(region@),
                cs as int,
                ce as int,
            ),
    {
        let ghost m = self@;
        let a = larger(region.full_range.start, cs);
        let d = smaller(region.full_range.end, ce);
        let ghost outer = seq![a as int, d as int];
        let ghost mut done = raw;
        // A checkbox region stands for itself.
        if region.checkbox.is_some() {
            add_cuts(v, a, d, cs, ce, Ghost(done));
            proof {
                done = done + outer;
            }
        }
        if region.full_range.end > cs && region.full_range.start < ce {
            if self.inside(region) {
                add_cuts(v, a, d, cs, ce, Ghost(done));
                assert(done + outer =~= raw + m.region_cuts(region@));
            } else {
                let b = larger(region.content_range.start, cs);
                let c = smaller(region.content_range.end, ce);
                let ghost opened = done + seq![a as int, b as int];
                add_cuts(v, a, b, cs, ce, Ghost(done));
                add_cuts(v, c, d, cs, ce, Ghost(opened));
                assert(opened + seq![c as int, d as int] =~= raw + m.region_cuts(region@));
            }
        } else {
            assert(done =~= raw + m.region_cuts(region@));
        }
    }

    /// Whether a span of the content is not shown.
    fn span_hidden(&self, start: usize, end: usize) -> (r: bool)
        ensures
            r == self@.span_hidden(start as int, end as int),
    {
        let ghost m = self@;
        let content = self.styled_range();
        if self.is_heading() && !self.cursor_on_line() && !self.selection_on_line() {
            if let Some(marker) = self.line.marker_range() {
                if start >= marker.start && end <= marker.end {
                    return true;
                }
            }
        }
        let mut i: usize = 0;
        while i < self.inline_styles.len()
            invariant
                m == self@,
                (content.start as int, content.end as int) == m.styled_range(),
                !m.heading_hides(start as int, end as int),
                i <= self.inline_styles@.len(),
                forall|k: int|
                    0 <= k < i ==> !#[trigger] m.region_hides(
                        m.styles[k],
                        start as int,
                        end as int,
                    ),
            decreases self.inline_styles@.len() - i,
        {
            let r = &self.inline_styles[i];
            assert(m.styles[i as int] == r@);
            if !self.inside(r) {
                let a = larger(r.full_range.start, content.start);
                let b = smaller(r.content_range.start, content.end);
                let c = larger(r.content_range.end, content.start);
                let d = smaller(r.full_range.end, content.end);
                if (b > a && start >= a && end <= b) || (d > c && start >= c && end <= d) {
                    assert(m.region_hides(m.styles[i as int], start as int, end as int));
                    return true;
                }
            }
            i += 1;
        }
        false
    }

    /// The first region that is exactly a span and shown by another text.
    fn shown_region(&self, start: usize, end: usize) -> (r: Option<&StyledRegion>)
        ensures
            match r {
                Some(r) => self@.shown_region(start as int, end as int, 0) == Some(r@)
                    && r.display_text is Some && r@.full == (start as int, end as int),
                None => self@.shown_region(start as int, end as int, 0) is None,
            },
    {
        let mut i: usize = 0;
        while i < self.inline_styles.len()
            invariant
                i <= self.inline_styles@.len(),
                self@.shown_region(start as int, end as int, 0) == self@.shown_region(
                    start as int,
                    end as int,
                    i as int,
                ),
            decreases self.inline_styles@.len() - i,
        {
            let r = &self.inline_styles[i];
            assert(self@.styles[i as int] == r@);
            if r.display_text.is_some() && r.full_range.start == start && r.full_range.end == end
                && !self.inside(r) {
                return Some(r);
            }
            i += 1;
        }
        None
    }

    /// The styles that hold of a span.
    fn flags(&self, start: usize, end: usize) -> (f: SpanFlags)
        ensures
            f == self@.flags(start as int, end as int, self@.styles.len() as int),
    {
        let mut f = SpanFlags {
            bold: false,
            italic: false,
            code: false,
            strikethrough: false,
            link: false,
            checkbox: None,
        };
        let mut i: usize = 0;
        while i < self.inline_styles.len()
            invariant
                i <= self.inline_styles@.len(),
                f == self@.flags(start as int, end as int, i as int),
            decreases self.inline_styles@.len() - i,
        {
            let r = &self.inline_styles[i];
            assert(self@.styles[i as int] == r@);
            let holds = if self.inside(r) {
                r.full_range.start <= start && end <= r.full_range.end
            } else {
                r.content_range.start <= start && end <= r.content_range.end
            };
            if holds {
                f = SpanFlags {
                    bold: f.bold || r.style.bold,
                    italic: f.italic || r.style.italic,
                    code: f.code || r.style.code,
                    strikethrough: f.strikethrough || r.style.strikethrough,
                    link: f.link || r.link_url.is_some(),
                    checkbox: if f.checkbox.is_some() {
                        f.checkbox
                    } else {
                        r.checkbox
                    },
                };
            }
            i += 1;
        }
        f
    }

    /// The range of the first ordered list marker.
    fn number_range(&self) -> (r: Option<Range<usize>>)
        ensures
            range_pair(r) == self@.number_range(),
    {
        let ghost ms = self@.line.markers;
        let ghost p = |k: MarkerKindView| is_numbered(k);
        let mut i: usize = 0;
        assert(ms.subrange(0, ms.len() as int) =~= ms);
        while i < self.line.markers.len()
            invariant
                i <= self.line.markers@.len(),
                ms == self@.line.markers,
                p == |k: MarkerKindView| is_numbered(k),
                first_marker(ms, p) == first_marker(ms.subrange(i as int, ms.len() as int), p),
            decreases self.line.markers@.len() - i,
        {
            let ghost from = ms.subrange(i as int, ms.len() as int);
            assert(from[0] == self.line.markers@[i as int]@);
            assert(from.drop_first() =~= ms.subrange(i + 1, ms.len() as int));
            let m = &self.line.markers[i];
            if let MarkerKind::ListItem { ordered, .. } = &m.kind {
                if *ordered {
                    return Some(m.range.start..m.range.end);
                }
            }
            i += 1;
        }
        None
    }

    /// The run of a span.
    fn span_run(&self, start: usize, end: usize) -> (r: TextRun)
        requires
            start <= end,
        ensures
            r == self@.span_run(start as int, end as int),
    {
        let f = self.flags(start, end);
        let is_code_block = self.is_code_block_line();
        let in_number = match self.number_range() {
            Some(r) => start < r.end && end > r.start,
            None => false,
        };
        let color = if f.strikethrough {
            LineColor::Border
        } else if let Some(checked) = f.checkbox {
            if checked {
                LineColor::CheckboxChecked
            } else {
                LineColor::CheckboxUnchecked
            }
        } else if f.link {
            LineColor::Link
        } else if let Some(color) = self.get_highlight_color_for_range(start, end) {
            color
        } else if f.code && !is_code_block {
            LineColor::Code
        } else {
            LineColor::Text
        };
        TextRun {
            len: end - start,
            code_font: f.code || is_code_block || in_number || f.checkbox.is_some(),
            bold: f.bold || self.display_heading_level().is_some(),
            italic: f.italic,
            color,
            background_color: None,
            underline: f.link,
            strikethrough: f.strikethrough,
        }
    }

    /// Puts a span of the content behind a styled text.
    fn push_span(&self, s: &mut StyledContent, start: usize, end: usize)
        requires
            !self@.span_hidden(start as int, end as int) ==> is_slice(
                self@.bytes,
                start as int,
                end as int,
            ),
            balanced(old(s)@),
        ensures
            final(s)@ == self@.with_span(old(s)@, start as int, end as int),
            balanced(final(s)@),
    {
        if self.span_hidden(start, end) {
            return;
        }
        let span_text = self.slice(start, end);
        // A region with a display text is one span, as it has no delimiters. It shows its
        // display text only while the cursor is outside.
        if let Some(region) = self.shown_region(start, end) {
            if let Some(text) = &region.display_text {
                let ghost before = s@;
                let visual_start = byte_len(s.text.as_str());
                let len = byte_len(text.as_str());
                let mut run = text_run(len, false, LineColor::Link);
                run.underline = true;
                push_text(s, text.as_str(), run);
                proof {
                    lemma_encode_concat(before.text, text@);
                }
                let visual_end = byte_len(s.text.as_str());
                let c = CollapsedDisplayText {
                    visual_range: visual_start..visual_end,
                    buffer_range: start..end,
                    display_text: text.clone(),
                    buffer_text: span_text,
                };
                let ghost old_collapsed = s.collapsed@;
                s.collapsed.push(c);
                assert(collapsed_view(s.collapsed@) =~= collapsed_view(old_collapsed).push(c@));
                assert(s@ == self@.with_span(before, start as int, end as int));
                return;
            }
        }
        push_text(s, span_text.as_str(), self.span_run(start, end));
    }

    /// The text that is shown of the line, its runs, and the regions in it that are shown
    /// in a shorter form.
    pub fn build_styled_content(&self) -> (s: StyledContent)
        requires
            self@.cuts(),
        ensures
            s@ == self@.styled(),
            balanced(s@),
    {
        let ghost m = self@;
        let mut s = self.prefix_styled();
        if self.line.is_fence() {
            self.push_fence(&mut s);
            return s;
        }
        if self.line.is_thematic_break() {
            let start = self.line.range.start;
            let end = self.line.range.end;
            let text = self.slice(start, end);
            let color = if self.cursor_on_line() || self.selection_on_line() {
                LineColor::Text
            } else {
                LineColor::Transparent
            };
            push_text(&mut s, text.as_str(), text_run(end - start, false, color));
            return s;
        }
        let content = self.styled_range();
        if content.start >= content.end {
            return s;
        }
        let cuts = self.cut_points();
        let ghost before = s@;
        let ghost points = ints_of(cuts@);
        if cuts.len() == 0 {
            return s;
        }
        let n = cuts.len();
        let mut k: usize = 0;
        while k + 1 < n
            invariant
                n == cuts@.len(),
                n >= 1,
                m == self@,
                m.cuts(),
                !m.is_fence(),
                !m.is_break(),
                points == m.cut_points(),
                points == ints_of(cuts@),
                0 <= k < n,
                s@ == m.with_spans(before, points, k as int),
                balanced(s@),
            decreases n - k,
        {
            assert(points[k as int] == cuts@[k as int]);
            assert(points[k + 1] == cuts@[k + 1]);
            assert(m.cut_points()[k + 1] == points[k + 1]);
            self.push_span(&mut s, cuts[k], cuts[k + 1]);
            k += 1;
        }
        s
    }
}

// ---------------------------------------------------------------------------
// Cursor and selection
// ---------------------------------------------------------------------------

impl LineModel {
    /// The bytes of a region's delimiters, clipped to `content`, that are hidden before an
    /// offset.
    pub open spec fn region_hidden_before(
        self,
        r: RegionView,
        offset: int,
        content: (int, int),
    ) -> int {
        let (a, b) = (max2(r.full.0, content.0), min2(r.content.0, content.1));
        let (c, d) = (max2(r.content.1, content.0), min2(r.full.1, content.1));
        if self.inside(r) {
            0
        } else {
            (if b > a && offset > b {
                b - a
            } else {
                0
            }) + (if d > c && offset > d {
                d - c
            } else {
                0
            })
        }
    }

    /// The bytes that the first `k` regions hide before an offset.
    pub open spec fn regions_hidden_before(
        self,
        offset: int,
        content: (int, int),
        k: int,
    ) -> int
        decreases k,
    {
        if k <= 0 {
            0
        } else {
            self.regions_hidden_before(offset, content, k - 1) + self.region_hidden_before(
                self.styles[k - 1],
                offset,
                content,
            )
        }
    }

    /// The bytes of a heading's marker that are hidden before an offset.
    pub open spec fn marker_hidden_before(self, offset: int) -> int {
        match self.spacers() {
            Some((s, e)) => if self.is_heading() && !self.is_active() && offset > e {
                e - s
            } else {
                0
            },
            None => 0,
        }
    }

    /// The bytes that are hidden before an offset.
    pub open spec fn hidden_before(self, offset: int, content: (int, int)) -> int {
        self.marker_hidden_before(offset) + self.regions_hidden_before(
            offset,
            content,
            self.styles.len() as int,
        )
    }

    /// The range in which positions are counted.
    pub open spec fn counted_range(self) -> (int, int) {
        if self.is_fence() {
            self.fence_range()
        } else if self.is_break() || (self.is_heading() && self.is_active()) {
            self.range()
        } else {
            self.content_range()
        }
    }

    /// The place in a display text of `len` bytes where a buffer offset is shown.
    pub open spec fn visual_pos(self, offset: int, len: int) -> int {
        let content = self.counted_range();
        if content.0 >= content.1 {
            0
        } else {
            let at = min2(offset, content.1);
            let in_content = max2(at - content.0, 0);
            min2(max2(in_content - self.hidden_before(at, content), 0), len)
        }
    }

    /// The hidden bytes before an offset can be counted.
    pub open spec fn counts(self, offset: int) -> bool {
        let content = self.counted_range();
        content.0 < content.1 ==> {
            &&& self.marker_hidden_before(min2(offset, content.1)) >= 0
            &&& self.hidden_before(min2(offset, content.1), content) <= usize::MAX
        }
    }

    /// The cursor is before the content.
    pub open spec fn cursor_in_markers(self) -> bool {
        self.cursor_on_line() && !self.is_fence() && !self.is_break() && !self.is_heading()
            && self.cursor < self.content_range().0
    }

    /// The place in a display text of `len` bytes where the cursor is shown.
    pub open spec fn visual_cursor(self, len: int) -> Option<int> {
        if self.cursor_on_line() && !self.cursor_in_markers() {
            Some(self.visual_pos(self.cursor, len))
        } else {
            None
        }
    }

    /// The part of a display text of `len` bytes that is selected.
    pub open spec fn visual_selection(self, len: int) -> Option<(int, int)> {
        match self.selection {
            None => None,
            Some(sel) => {
                let s = self.visual_pos(max2(sel.0, self.line.start), len);
                let e = self.visual_pos(min2(sel.1, self.line.end), len);
                if sel.1 <= self.line.start || sel.0 >= self.line.end || s >= e {
                    None
                } else {
                    Some((s, e))
                }
            },
        }
    }

    /// The places in a display text of `len` bytes where the first `k` changed ranges
    /// show.
    pub open spec fn visual_changes(self, len: int, k: int) -> Seq<Range<usize>>
        decreases k,
    {
        if k <= 0 {
            seq![]
        } else {
            let rest = self.visual_changes(len, k - 1);
            let r = self.changed[k - 1];
            let s = self.visual_pos(self.line.start + r.start, len);
            let e = self.visual_pos(self.line.start + r.end, len);
            if s < e {
                rest.push(Range { start: s as usize, end: e as usize })
            } else {
                rest
            }
        }
    }

    /// Every position that is shown can be counted.
    pub open spec fn positions_count(self) -> bool {
        &&& self.cursor_on_line() ==> self.counts(self.cursor)
        &&& self.selection matches Some(sel) ==> {
            &&& self.counts(max2(sel.0, self.line.start))
            &&& self.counts(min2(sel.1, self.line.end))
        }
        &&& self.show_changed ==> forall|i: int|
            0 <= i < self.changed.len() ==> {
                let r = #[trigger] self.changed[i];
                &&& self.line.start + r.start <= usize::MAX
                &&& self.line.start + r.end <= usize::MAX
                &&& self.counts(self.line.start + r.start)
                &&& self.counts(self.line.start + r.end)
            }
    }
}

proof fn lemma_hidden_before_grows(m: LineModel, offset: int, content: (int, int), k: int)
    requires
        0 <= k <= m.styles.len(),
    ensures
        0 <= m.regions_hidden_before(offset, content, k) <= m.regions_hidden_before(
            offset,
            content,
            m.styles.len() as int,
        ),
    decreases m.styles.len() - k,
{
    if k < m.styles.len() {
        lemma_hidden_before_grows(m, offset, content, k + 1);
    }
    lemma_hidden_before_positive(m, offset, content, k);
}

proof fn lemma_hidden_before_positive(m: LineModel, offset: int, content: (int, int), k: int)
    ensures
        0 <= m.regions_hidden_before(offset, content, k),
    decreases k,
{
    if k > 0 {
        lemma_hidden_before_positive(m, offset, content, k - 1);
    }
}

impl Line {
    /// The bytes that are hidden before an offset.
    fn hidden_bytes_before(&self, offset: usize, content: &Range<usize>) -> (r: usize)
        requires
            self@.marker_hidden_before(offset as int) >= 0,
            self@.hidden_before(offset as int, (content.start as int, content.end as int))
                <= usize::MAX,
        ensures
            r == self@.hidden_before(offset as int, (content.start as int, content.end as int)),
    {
        let ghost m = self@;
        let ghost c = (content.start as int, content.end as int);
        let mut hidden: usize = 0;
        proof {
            lemma_hidden_before_grows(m, offset as int, c, 0);
        }
        // For headings, the marker is hidden when cursor and selection are not on line
        if self.is_heading() && !self.cursor_on_line() && !self.selection_on_line() {
            if let Some(marker) = self.line.marker_range() {
                if offset > marker.end {
                    hidden = marker.end - marker.start;
                }
            }
        }
        let mut i: usize = 0;
        while i < self.inline_styles.len()
            invariant
                m == self@,
                c == (content.start as int, content.end as int),
                i <= self.inline_styles@.len(),
                m.marker_hidden_before(offset as int) >= 0,
                m.hidden_before(offset as int, c) <= usize::MAX,
                hidden == m.marker_hidden_before(offset as int) + m.regions_hidden_before(
                    offset as int,
                    c,
                    i as int,
                ),
            decreases self.inline_styles@.len() - i,
        {
            let r = &self.inline_styles[i];
            proof {
                assert(m.styles[i as int] == r@);
                lemma_hidden_before_grows(m, offset as int, c, i as int);
                lemma_hidden_before_grows(m, offset as int, c, i + 1);
            }
            if !self.inside(r) {
                let opening_start = larger(r.full_range.start, content.start);
                let opening_end = smaller(r.content_range.start, content.end);
                if opening_end > opening_start && offset > opening_end {
                    hidden += opening_end - opening_start;
                }
                let closing_start = larger(r.content_range.end, content.start);
                let closing_end = smaller(r.full_range.end, content.end);
                if closing_end > closing_start && offset > closing_end {
                    hidden += closing_end - closing_start;
                }
            }
            i += 1;
        }
        hidden
    }

    /// Returns true if the cursor is in the marker area (before content starts)
    pub fn cursor_in_marker_area(&self) -> (r: bool)
        ensures
            r == self@.cursor_in_markers(),
    {
        if !self.cursor_on_line() {
            return false;
        }
        if self.line.is_fence() || self.line.is_thematic_break() || self.is_heading() {
            return false;
        }
        self.cursor_offset < self.content_range().start
    }

    /// The range in which positions are counted.
    fn counted_range(&self) -> (r: Range<usize>)
        ensures
            (r.start as int, r.end as int) == self@.counted_range(),
    {
        if self.line.is_fence() {
            self.fence_range()
        } else if self.line.is_thematic_break() || (self.is_heading() && (self.cursor_on_line()
            || self.selection_on_line())) {
            self.line.range.start..self.line.range.end
        } else {
            self.content_range()
        }
    }

    /// The place in the display text where a buffer offset is shown.
    pub fn buffer_to_visual_pos(&self, buffer_offset: usize, display_text: &str) -> (r: usize)
        requires
            self@.counts(buffer_offset as int),
        ensures
            r == self@.visual_pos(buffer_offset as int, display_text.spec_bytes().len() as int),
    {
        let content = self.counted_range();
        if content.start >= content.end {
            return 0;
        }
        let at = smaller(buffer_offset, content.end);
        let hidden = self.hidden_bytes_before(at, &content);
        proof {
            lemma_hidden_before_positive(
                self@,
                at as int,
                (content.start as int, content.end as int),
                self@.styles.len() as int,
            );
        }
        let in_content = if at >= content.start {
            at - content.start
        } else {
            0
        };
        let visual_pos = if in_content >= hidden {
            in_content - hidden
        } else {
            0
        };
        smaller(visual_pos, byte_len(display_text))
    }

    /// The place in the display text where the cursor is shown.
    pub fn compute_visual_cursor_pos(&self, display_text: &str) -> (r: Option<usize>)
        requires
            self@.cursor_on_line() ==> self@.counts(self@.cursor),
        ensures
            match r {
                Some(p) => self@.visual_cursor(display_text.spec_bytes().len() as int) == Some(
                    p as int,
                ),
                None => self@.visual_cursor(display_text.spec_bytes().len() as int) is None,
            },
    {
        if !self.cursor_on_line() || self.cursor_in_marker_area() {
            return None;
        }
        Some(self.buffer_to_visual_pos(self.cursor_offset, display_text))
    }

    /// The part of the display text that is selected.
    pub fn compute_visual_selection_range(&self, display_text: &str) -> (r: Option<Range<usize>>)
        requires
            self@.selection matches Some(sel) ==> self@.counts(max2(sel.0, self@.line.start))
                && self@.counts(min2(sel.1, self@.line.end)),
        ensures
            range_pair(r) == self@.visual_selection(display_text.spec_bytes().len() as int),
    {
        match &self.selection_range {
            None => None,
            Some(sel) => {
                let line = &self.line.range;
                if sel.end <= line.start || sel.start >= line.end {
                    return None;
                }
                let s = self.buffer_to_visual_pos(larger(sel.start, line.start), display_text);
                let e = self.buffer_to_visual_pos(smaller(sel.end, line.end), display_text);
                if s < e {
                    Some(s..e)
                } else {
                    None
                }
            },
        }
    }

    /// Apply selection background color to text runs that overlap with the selection range.
    pub fn apply_selection_to_runs(&self, runs: Vec<TextRun>, selection: Range<usize>) -> (r: Vec<
        TextRun,
    >)
        requires
            run_bytes(runs@) <= usize::MAX,
        ensures
            r@ == with_background(runs@, seq![selection], LineColor::Selection),
    {
        let ranges: Vec<Range<usize>> = vec![selection];
        assert(ranges@ =~= seq![selection]);
        apply_background_to_runs(runs, &ranges, LineColor::Selection)
    }

    /// Apply inline highlight to runs.
    /// The ranges are byte offsets within the line content.
    pub fn apply_inline_highlight_to_runs(
        &self,
        runs: Vec<TextRun>,
        display_text: &str,
    ) -> (r: Vec<TextRun>)
        requires
            run_bytes(runs@) <= usize::MAX,
            self@.show_changed,
            self@.positions_count(),
        ensures
            r@ == ({
                let marks = self@.visual_changes(
                    display_text.spec_bytes().len() as int,
                    self@.changed.len() as int,
                );
                if marks.len() == 0 {
                    runs@
                } else {
                    with_background(runs@, marks, LineColor::InlineHighlight)
                }
            }),
    {
        let ghost m = self@;
        let ghost len = display_text.spec_bytes().len() as int;
        let mut marks: Vec<Range<usize>> = Vec::new();
        let mut i: usize = 0;
        while i < self.inline_highlight_ranges.len()
            invariant
                m == self@,
                m.show_changed,
                m.positions_count(),
                len == display_text.spec_bytes().len(),
                i <= self.inline_highlight_ranges@.len(),
                marks@ == m.visual_changes(len, i as int),
            decreases self.inline_highlight_ranges@.len() - i,
        {
            let r = &self.inline_highlight_ranges[i];
            assert(m.changed[i as int] == *r);
            // The range is relative to line start in buffer coordinates
            let s = self.buffer_to_visual_pos(self.line.range.start + r.start, display_text);
            let e = self.buffer_to_visual_pos(self.line.range.start + r.end, display_text);
            if s < e {
                marks.push(s..e);
            }
            i += 1;
        }
        apply_background_to_runs(runs, &marks, LineColor::InlineHighlight)
    }
}

// ---------------------------------------------------------------------------
// The line as it is shown
// ---------------------------------------------------------------------------

/// What is shown of a line: its text and runs with their backgrounds, the regions shown
/// in a shorter form, and where the cursor is.
#[derive(Debug)]
pub struct ShownLine {
    pub text: String,
    pub runs: Vec<TextRun>,
    pub collapsed: Vec<CollapsedDisplayText>,
    pub cursor: Option<usize>,
}

impl LineModel {
    /// The styled content behind the prefix; a space where both are empty.
    pub open spec fn prefixed(self) -> StyledView {
        let s = self.styled();
        let p = match self.prefix {
            Some((text, runs)) => StyledView { text: text + s.text, runs: runs + s.runs, ..s },
            None => s,
        };
        if p.text.len() == 0 {
            StyledView {
                text: seq![' '],
                runs: p.runs.push(
                    TextRun {
                        bold: self.display_heading_level() is Some,
                        ..plain_text_run(1, false, LineColor::Text)
                    },
                ),
                ..p
            }
        } else {
            p
        }
    }

    /// The runs with the selection behind them.
    pub open spec fn selected_runs(self) -> Seq<TextRun> {
        let p = self.prefixed();
        match self.visual_selection(byte_count(p.text)) {
            Some((s, e)) => with_background(
                p.runs,
                seq![Range { start: s as usize, end: e as usize }],
                LineColor::Selection,
            ),
            None => p.runs,
        }
    }

    /// The runs with the selection and the changes behind them.
    pub open spec fn shown_runs(self) -> Seq<TextRun> {
        let p = self.prefixed();
        let marks = self.visual_changes(byte_count(p.text), self.changed.len() as int);
        if self.show_changed && marks.len() > 0 {
            with_background(self.selected_runs(), marks, LineColor::InlineHighlight)
        } else {
            self.selected_runs()
        }
    }
}

/// The size of the text of a heading, in percent of the body text.
pub open spec fn size_of_level(level: u8) -> u16 {
    if level == 1 {
        200
    } else if level == 2 {
        175
    } else if level == 3 {
        150
    } else if level == 4 {
        125
    } else if level == 5 {
        110
    } else {
        100
    }
}

fn append_runs(out: &mut Vec<TextRun>, runs: &Vec<TextRun>)
    ensures
        final(out)@ == old(out)@ + runs@,
{
    let ghost before = out@;
    let mut i: usize = 0;
    while i < runs.len()
        invariant
            i <= runs@.len(),
            out@ == before + runs@.subrange(0, i as int),
        decreases runs@.len() - i,
    {
        out.push(runs[i]);
        i += 1;
        assert(out@ =~= before + runs@.subrange(0, i as int));
    }
    assert(runs@.subrange(0, i as int) =~= runs@);
}

proof fn lemma_space_is_one_byte()
    ensures
        encode_utf8(seq![' ']).len() == 1,
{
    reveal_with_fuel(encode_utf8, 2);
    assert(seq![' '].drop_first() =~= Seq::<char>::empty());
}

impl Line {
    /// The text of the line as it is shown.
    pub fn shown(&self) -> (r: ShownLine)
        requires
            self@.cuts(),
            self@.positions_count(),
            self@.prefix matches Some((text, runs)) ==> run_bytes(runs) == byte_count(text)
                && byte_count(text) + byte_count(self@.styled().text) <= usize::MAX,
        ensures
            r.text@ == self@.prefixed().text,
            r.runs@ == self@.shown_runs(),
            collapsed_view(r.collapsed@) == self@.styled().collapsed,
            match r.cursor {
                Some(p) => self@.visual_cursor(byte_count(r.text@)) == Some(p as int),
                None => self@.visual_cursor(byte_count(r.text@)) is None,
            },
            run_bytes(r.runs@) == byte_count(r.text@),
    {
        let ghost m = self@;
        let s = self.build_styled_content();
        let collapsed = s.collapsed;
        let mut text = s.text;
        let mut runs = s.runs;
        if let Some((prefix_text, prefix_runs)) = &self.prefix {
            let mut new_text = prefix_text.clone();
            new_text.append(text.as_str());
            let mut new_runs: Vec<TextRun> = Vec::new();
            append_runs(&mut new_runs, prefix_runs);
            append_runs(&mut new_runs, &runs);
            proof {
                lemma_encode_concat(prefix_text@, text@);
                lemma_run_bytes_concat(prefix_runs@, runs@);
                assert(new_runs@ =~= prefix_runs@ + runs@);
            }
            text = new_text;
            runs = new_runs;
        }
        if text.as_str().is_empty() {
            let mut run = text_run(1, false, LineColor::Text);
            run.bold = self.display_heading_level().is_some();
            let ghost before = runs@;
            proof {
                assert(text@ =~= Seq::<char>::empty());
                assert(encode_utf8(text@).len() == 0);
                reveal_strlit(" ");
                assert(" "@ =~= seq![' ']);
                lemma_space_is_one_byte();
            }
            runs.push(run);
            assert(runs@.drop_last() =~= before);
            text = " ".to_owned();
        }
        assert(text@ == m.prefixed().text);
        assert(runs@ == m.prefixed().runs);
        let cursor = self.compute_visual_cursor_pos(text.as_str());
        let len = byte_len(text.as_str());
        assert(run_bytes(runs@) == len);
        if let Some(sel) = self.compute_visual_selection_range(text.as_str()) {
            proof {
                law_background_keeps_bytes(runs@, seq![sel], LineColor::Selection);
            }
            runs = self.apply_selection_to_runs(runs, sel);
        }
        assert(runs@ == m.selected_runs());
        // Changed words are highlighted on top of the selection.
        if self.inline_highlight {
            proof {
                law_background_keeps_bytes(
                    runs@,
                    m.visual_changes(byte_count(text@), m.changed.len() as int),
                    LineColor::InlineHighlight,
                );
            }
            runs = self.apply_inline_highlight_to_runs(runs, text.as_str());
        }
        ShownLine { text, runs, collapsed, cursor }
    }
}

// ---------------------------------------------------------------------------
// Spacers
// ---------------------------------------------------------------------------

/// What a spacer shows in the place of a marker.
#[derive(Debug, Clone, PartialEq)]
pub enum SpacerKind {
    /// A vertical bar.
    Quote,
    /// Nothing.
    Indent,
    /// A bullet or a number.
    Label(String),
}

/// The space that a marker takes before the content.
#[derive(Debug, Clone, PartialEq)]
pub struct Spacer {
    pub kind: SpacerKind,
    /// Where the marker starts. Clicks on the spacer go there.
    pub marker_start: usize,
    /// How many characters wide it is.
    pub chars: usize,
    pub color: LineColor,
    pub selected: bool,
    /// The cursor's place in it.
    pub cursor: Option<usize>,
}

/// What a [`SpacerKind`] says.
pub enum SpacerKindView {
    Quote,
    Indent,
    Label(Seq<char>),
}

/// What a [`Spacer`] says.
pub struct SpacerView {
    pub kind: SpacerKindView,
    pub marker_start: int,
    pub chars: int,
    pub color: LineColor,
    pub selected: bool,
    pub cursor: Option<int>,
}

impl View for SpacerKind {
    type V = SpacerKindView;

    open spec fn view(&self) -> SpacerKindView {
        match *self {
            SpacerKind::Quote => SpacerKindView::Quote,
            SpacerKind::Indent => SpacerKindView::Indent,
            SpacerKind::Label(text) => SpacerKindView::Label(text@),
        }
    }
}

impl View for Spacer {
    type V = SpacerView;

    open spec fn view(&self) -> SpacerView {
        SpacerView {
            kind: self.kind@,
            marker_start: self.marker_start as int,
            chars: self.chars as int,
            color: self.color,
            selected: self.selected,
            cursor: match self.cursor {
                Some(c) => Some(c as int),
                None => None,
            },
        }
    }
}

/// What some spacers say.
pub open spec fn spacers_view(ss: Seq<Spacer>) -> Seq<SpacerView> {
    ss.map_values(|s: Spacer| s@)
}

impl LineModel {
    /// What a spacer shows in the place of a marker, if the marker has one.
    pub open spec fn spacer_kind(self, m: MarkerView) -> Option<SpacerKindView> {
        match m.kind {
            MarkerKindView::BlockQuote => Some(SpacerKindView::Quote),
            MarkerKindView::Indent => Some(SpacerKindView::Indent),
            MarkerKindView::ListItem { ordered, unordered_marker, .. } => Some(
                SpacerKindView::Label(
                    if ordered {
                        chars_of(self.bytes, m.start, m.end)
                    } else {
                        match unordered_marker {
                            Some(u) => u.spec_bullet(),
                            None => "• "@,
                        }
                    },
                ),
            ),
            _ => None,
        }
    }

    /// The spacer of a marker. In a completed task it is muted.
    pub open spec fn spacer(self, m: MarkerView, kind: SpacerKindView) -> SpacerView {
        SpacerView {
            kind,
            marker_start: m.start,
            chars: max2(m.end - m.start, 0),
            color: if self.line.in_checked_task {
                LineColor::Selection
            } else if kind is Label {
                LineColor::Text
            } else {
                LineColor::Border
            },
            selected: self.in_selection((m.start, m.end)),
            cursor: if self.cursor_in_markers() && m.start <= self.cursor < m.end {
                Some(self.cursor - m.start)
            } else {
                None
            },
        }
    }

    /// The spacers of the markers from `i` on, the last one first.
    pub open spec fn spacers_from(self, i: int) -> Seq<SpacerView>
        decreases self.line.markers.len() - i,
    {
        if i < 0 || i >= self.line.markers.len() {
            seq![]
        } else {
            let rest = self.spacers_from(i + 1);
            let m = self.line.markers[i];
            match self.spacer_kind(m) {
                Some(kind) => rest.push(self.spacer(m, kind)),
                None => rest,
            }
        }
    }

    /// The text size, in percent, that the headings among the markers from `i` on ask for:
    /// the first one of a level that has a size of its own decides.
    pub open spec fn heading_size(self, i: int) -> u16
        decreases self.line.markers.len() - i,
    {
        if i < 0 || i >= self.line.markers.len() {
            100
        } else {
            match self.line.markers[i].kind {
                MarkerKindView::Heading(level) => if 1 <= level <= 5 {
                    size_of_level(level)
                } else {
                    self.heading_size(i + 1)
                },
                _ => self.heading_size(i + 1),
            }
        }
    }

    /// The size of the text, in percent of the body text: a little smaller in code blocks,
    /// larger in headings, but not while only their `#`s are typed.
    pub open spec fn text_size(self) -> u16 {
        if self.is_code_line() {
            90
        } else if self.display_heading_level() is Some {
            self.heading_size(0)
        } else {
            100
        }
    }

    /// The line is drawn as a rule.
    pub open spec fn is_rule(self) -> bool {
        self.is_break() && !self.is_active()
    }

    /// The line is drawn as nothing but its image.
    pub open spec fn is_image_only(self) -> bool {
        self.standalone_image_url() is Some && !self.is_active()
    }
}

impl Line {
    /// The spacers before the content, from left to right. Headings, fences, breaks and
    /// checkboxes have none: they are shown with the text.
    pub fn spacers(&self) -> (r: Vec<Spacer>)
        requires
            forall|i: int|
                0 <= i < self@.line.markers.len() && is_numbered(
                    (#[trigger] self@.line.markers[i]).kind,
                ) ==> is_slice(
                    self@.bytes,
                    self@.line.markers[i].start,
                    self@.line.markers[i].end,
                ),
        ensures
            spacers_view(r@) == self@.spacers_from(0),
    {
        let ghost m = self@;
        let in_markers = self.cursor_in_marker_area();
        let mut out: Vec<Spacer> = Vec::new();
        let mut i: usize = self.line.markers.len();
        assert(spacers_view(out@) =~= Seq::<SpacerView>::empty());
        while i > 0
            invariant
                m == self@,
                in_markers == m.cursor_in_markers(),
                i <= self.line.markers@.len(),
                forall|i: int|
                    0 <= i < m.line.markers.len() && is_numbered(
                        (#[trigger] m.line.markers[i]).kind,
                    ) ==> is_slice(m.bytes, m.line.markers[i].start, m.line.markers[i].end),
                spacers_view(out@) == m.spacers_from(i as int),
            decreases i,
        {
            i -= 1;
            let marker = &self.line.markers[i];
            assert(m.line.markers[i as int] == marker@);
            let kind: Option<SpacerKind> = match &marker.kind {
                MarkerKind::BlockQuote => Some(SpacerKind::Quote),
                MarkerKind::Indent => Some(SpacerKind::Indent),
                MarkerKind::ListItem { ordered, unordered_marker, .. } => {
                    let text = if *ordered {
                        self.slice(marker.range.start, marker.range.end)
                    } else {
                        match unordered_marker {
                            Some(u) => u.bullet().to_owned(),
                            None => "• ".to_owned(),
                        }
                    };
                    Some(SpacerKind::Label(text))
                },
                _ => None,
            };
            if let Some(kind) = kind {
                let is_label = matches!(kind, SpacerKind::Label(_));
                let color = if self.line.in_checked_task {
                    LineColor::Selection
                } else if is_label {
                    LineColor::Text
                } else {
                    LineColor::Border
                };
                let range = &marker.range;
                let cursor = if in_markers && self.cursor_offset >= range.start
                    && self.cursor_offset < range.end {
                    Some(self.cursor_offset - range.start)
                } else {
                    None
                };
                let spacer = Spacer {
                    kind,
                    marker_start: range.start,
                    chars: if range.end >= range.start {
                        range.end - range.start
                    } else {
                        0
                    },
                    color,
                    selected: self.marker_in_selection(range),
                    cursor,
                };
                let ghost before = out@;
                out.push(spacer);
                assert(spacers_view(out@) =~= spacers_view(before).push(spacer@));
            }
        }
        out
    }

    /// The size of the text, in percent of the body text: a little smaller in code blocks,
    /// larger in headings, but not while only their `#`s are typed.
    pub fn text_size(&self) -> (r: u16)
        ensures
            r == self@.text_size(),
    {
        if self.is_code_block_line() {
            return 90;
        }
        if self.display_heading_level().is_none() {
            return 100;
        }
        let mut i: usize = 0;
        while i < self.line.markers.len()
            invariant
                i <= self.line.markers@.len(),
                self@.heading_size(0) == self@.heading_size(i as int),
                !self@.is_code_line(),
                self@.display_heading_level() is Some,
            decreases self.line.markers@.len() - i,
        {
            let marker = &self.line.markers[i];
            assert(self@.line.markers[i as int] == marker@);
            match &marker.kind {
                MarkerKind::Heading(level) => {
                    if 1 <= *level && *level <= 5 {
                        return match *level {
                            1 => 200,
                            2 => 175,
                            3 => 150,
                            4 => 125,
                            _ => 110,
                        };
                    }
                },
                _ => {},
            }
            i += 1;
        }
        100
    }

    /// Whether the line is drawn as a rule.
    pub fn is_rule(&self) -> (r: bool)
        ensures
            r == self@.is_rule(),
    {
        self.line.is_thematic_break() && !self.cursor_on_line() && !self.selection_on_line()
    }
}

// ---------------------------------------------------------------------------
// Images
// ---------------------------------------------------------------------------

impl Line {
    /// Whether the line is drawn as nothing but its image.
    pub fn is_image_only(&self) -> (r: bool)
        requires
            self@.line.markers.len() == 0 && self@.styles.len() == 1 && self@.styles[0].is_image
                ==> is_slice(self@.bytes, self@.line.start, self@.line.end) && is_slice(
                self@.bytes,
                self@.styles[0].full.0,
                self@.styles[0].full.1,
            ),
        ensures
            r == self@.is_image_only(),
    {
        self.standalone_image_url().is_some() && !self.cursor_on_line()
            && !self.selection_on_line()
    }
}

/// Where an image comes from.
#[derive(Debug, Clone, PartialEq)]
pub enum ImageSource {
    /// From the web.
    Url(String),
    /// From a file.
    File(String),
    /// From a file relative to a directory.
    Relative { base: String, path: String },
}

/// What an [`ImageSource`] says.
pub enum ImageSourceView {
    Url(Seq<char>),
    File(Seq<char>),
    Relative { base: Seq<char>, path: Seq<char> },
}

impl View for ImageSource {
    type V = ImageSourceView;

    open spec fn view(&self) -> ImageSourceView {
        match *self {
            ImageSource::Url(u) => ImageSourceView::Url(u@),
            ImageSource::File(f) => ImageSourceView::File(f@),
            ImageSource::Relative { base, path } => ImageSourceView::Relative {
                base: base@,
                path: path@,
            },
        }
    }
}

/// The text is a web address.
pub open spec fn is_web(url: Seq<char>) -> bool {
    matches_at(encode_utf8(url), encode_utf8("http://"@), 0) || matches_at(
        encode_utf8(url),
        encode_utf8("https://"@),
        0,
    )
}

impl LineModel {
    /// Where an image comes from: web addresses and absolute paths stand for themselves,
    /// other paths are relative to the document's directory, if it has one.
    pub open spec fn image_source(self, url: Seq<char>, is_absolute: bool) -> ImageSourceView {
        if is_web(url) {
            ImageSourceView::Url(url)
        } else if is_absolute || self.base_path is None {
            ImageSourceView::File(url)
        } else {
            ImageSourceView::Relative { base: self.base_path->0, path: url }
        }
    }
}

impl Line {
    /// Where an image comes from. Whether a path is absolute is a matter of the platform.
    pub fn resolve_image_source(&self, url: &str, is_absolute: bool) -> (r: ImageSource)
        ensures
            r@ == self@.image_source(url@, is_absolute),
    {
        if has_at(url.as_bytes(), "http://".as_bytes(), 0) || has_at(
            url.as_bytes(),
            "https://".as_bytes(),
            0,
        ) {
            return ImageSource::Url(url.to_owned());
        }
        if is_absolute {
            return ImageSource::File(url.to_owned());
        }
        match &self.base_path {
            Some(base) => ImageSource::Relative { base: base.clone(), path: url.to_owned() },
            None => ImageSource::File(url.to_owned()),
        }
    }
}

// ---------------------------------------------------------------------------
// Clicks
// ---------------------------------------------------------------------------

/// What the editor is asked to do by a click on a line.
#[derive(Debug, Clone, PartialEq)]
pub enum EditorAction {
    Click { offset: usize, shift: bool, click_count: usize },
    Drag { offset: usize },
    ToggleCheckbox { line_number: usize },
    OpenLink { url: String },
}

/// What an [`EditorAction`] says.
pub enum EditorActionView {
    Click { offset: int, shift: bool, click_count: usize },
    Drag { offset: int },
    ToggleCheckbox { line_number: int },
    OpenLink { url: Seq<char> },
}

impl View for EditorAction {
    type V = EditorActionView;

    open spec fn view(&self) -> EditorActionView {
        match *self {
            EditorAction::Click { offset, shift, click_count } => EditorActionView::Click {
                offset: offset as int,
                shift,
                click_count,
            },
            EditorAction::Drag { offset } => EditorActionView::Drag { offset: offset as int },
            EditorAction::ToggleCheckbox { line_number } => EditorActionView::ToggleCheckbox {
                line_number: line_number as int,
            },
            EditorAction::OpenLink { url } => EditorActionView::OpenLink { url: url@ },
        }
    }
}

/// What an optional action says.
pub open spec fn action_if_any(a: Option<EditorAction>) -> Option<EditorActionView> {
    match a {
        Some(a) => Some(a@),
        None => None,
    }
}

/// How a click was made.
#[derive(Debug, Clone, Copy, PartialEq, Eq, Structural)]
pub struct ClickInfo {
    /// Control or the platform's command key was held.
    pub follow: bool,
    pub shift: bool,
    pub click_count: usize,
}

/// What lies under a visual index.
#[derive(Debug, Clone, Copy, PartialEq, Eq, Structural)]
pub enum ClickTarget {
    /// The checkbox.
    Checkbox,
    /// The collapsed region of this index. Where in its full text a click falls is a
    /// matter of measured text.
    Collapsed(usize),
    /// A place in the buffer.
    Offset(usize),
}

/// What the mouse is over.
#[derive(Debug, Clone, PartialEq)]
pub struct Hover {
    pub over_checkbox: bool,
    pub over_link: bool,
    /// The reference that the mouse is over.
    pub ref_range: Option<Range<usize>>,
    /// Where that reference starts in the display text.
    pub ref_visual: Option<usize>,
}

/// A region's delimiters, clipped to a range.
pub open spec fn clipped(r: RegionView, content: (int, int)) -> HiddenRegion {
    (
        max2(r.full.0, content.0) as usize,
        min2(r.content.0, content.1) as usize,
        max2(r.content.1, content.0) as usize,
        min2(r.full.1, content.1) as usize,
    )
}

/// The first collapsed region from `i` on that shows at a visual index.
pub open spec fn collapsed_at(cs: Seq<CollapsedView>, index: int, i: int) -> Option<int>
    decreases cs.len() - i,
{
    if i < 0 || i >= cs.len() {
        None
    } else if cs[i].visual.0 <= index < cs[i].visual.1 {
        Some(i)
    } else {
        collapsed_at(cs, index, i + 1)
    }
}

/// The first range from `i` on that holds a byte.
pub open spec fn range_at(rs: Seq<Range<usize>>, pos: int, i: int) -> Option<Range<usize>>
    decreases rs.len() - i,
{
    if i < 0 || i >= rs.len() {
        None
    } else if rs[i].start <= pos < rs[i].end {
        Some(rs[i])
    } else {
        range_at(rs, pos, i + 1)
    }
}

impl LineModel {
    /// The range in which clicks fall.
    pub open spec fn click_range(self) -> (int, int) {
        if self.is_fence() {
            self.fence_range()
        } else if self.is_break() || self.is_heading() {
            self.range()
        } else {
            self.content_range()
        }
    }

    /// The length of a heading's marker, while it is hidden.
    pub open spec fn hidden_marker_len(self) -> int {
        match self.spacers() {
            Some((s, e)) => if self.is_heading() && !self.is_active() {
                max2(e - s, 0)
            } else {
                0
            },
            None => 0,
        }
    }

    /// The delimiters of the first `k` regions that are hidden.
    pub open spec fn hidden_regions(self, k: int) -> Seq<HiddenRegion>
        decreases k,
    {
        if k <= 0 {
            seq![]
        } else {
            let rest = self.hidden_regions(k - 1);
            if self.inside(self.styles[k - 1]) {
                rest
            } else {
                rest.push(clipped(self.styles[k - 1], self.click_range()))
            }
        }
    }

    /// The length of what the markers are replaced by.
    pub open spec fn prefix_len(self) -> int {
        match self.substitution {
            Some(s) => byte_count(s),
            None => 0,
        }
    }

    /// The buffer offset at a visual index behind the replaced markers.
    pub open spec fn offset_at(self, index: int) -> int {
        from_visual(
            max2(index - self.prefix_len(), 0),
            self.click_range(),
            self.hidden_marker_len(),
            self.hidden_regions(self.styles.len() as int),
            self.line.end,
        )
    }

    /// The visual index of a buffer offset.
    pub open spec fn visual_at(self, offset: int) -> int {
        to_visual(
            offset,
            self.click_range(),
            self.hidden_marker_len(),
            self.hidden_regions(self.styles.len() as int),
        ) + self.prefix_len()
    }

    /// The checkbox is at a visual index: it is the first four bytes of the content.
    pub open spec fn checkbox_at(self, index: int) -> bool {
        self.has_checkbox() && self.prefix_len() <= index < self.prefix_len() + 4
    }

    /// What a drag to a visual index reaches.
    pub open spec fn drag_target(self, index: int, cs: Seq<CollapsedView>) -> ClickTarget {
        match collapsed_at(cs, max2(index - self.prefix_len(), 0), 0) {
            Some(i) => ClickTarget::Collapsed(i as usize),
            None => ClickTarget::Offset(self.offset_at(index) as usize),
        }
    }

    /// What a click at a visual index hits.
    pub open spec fn click_target(self, index: int, cs: Seq<CollapsedView>) -> ClickTarget {
        if self.checkbox_at(index) {
            ClickTarget::Checkbox
        } else {
            self.drag_target(index, cs)
        }
    }

    /// The URL of the first link from `i` on whose content the offset is in or at the end
    /// of.
    pub open spec fn link_at(self, offset: int, i: int) -> Option<Seq<char>>
        decreases self.styles.len() - i,
    {
        if i < 0 || i >= self.styles.len() {
            None
        } else if self.styles[i].link_url is Some && cursor_inside(
            self.styles[i].content,
            offset,
        ) {
            self.styles[i].link_url
        } else {
            self.link_at(offset, i + 1)
        }
    }

    /// What a click at a buffer offset asks for: a link is followed, else the cursor is
    /// put there.
    pub open spec fn click_action(self, offset: int, how: ClickInfo) -> EditorActionView {
        if how.follow && self.link_at(offset, 0) is Some {
            EditorActionView::OpenLink { url: self.link_at(offset, 0)->0 }
        } else {
            EditorActionView::Click { offset, shift: how.shift, click_count: how.click_count }
        }
    }

    /// The offset is in the content of some link.
    pub open spec fn over_link(self, offset: int) -> bool {
        exists|i: int| 0 <= i < self.styles.len() && #[trigger] links_at(self.styles[i], offset)
    }

    /// Offsets and indices of the line can be counted.
    pub open spec fn clicks_count(self, index: int) -> bool {
        &&& self.prefix_len() + 4 <= usize::MAX
        &&& self.click_range().0 < self.click_range().1 ==> self.click_range().0
            + self.hidden_marker_len() + max2(index - self.prefix_len(), 0) <= usize::MAX
        &&& self.click_range().1 + self.prefix_len() <= usize::MAX
    }
}

/// The region is a link whose content holds the offset.
pub open spec fn links_at(r: RegionView, offset: int) -> bool {
    r.link_url is Some && r.content.0 <= offset < r.content.1
}

fn index_of_collapsed(cs: &Vec<CollapsedDisplayText>, index: usize) -> (r: Option<usize>)
    ensures
        match r {
            Some(i) => collapsed_at(collapsed_view(cs@), index as int, 0) == Some(i as int),
            None => collapsed_at(collapsed_view(cs@), index as int, 0) is None,
        },
{
    let ghost v = collapsed_view(cs@);
    let mut i: usize = 0;
    while i < cs.len()
        invariant
            i <= cs@.len(),
            v == collapsed_view(cs@),
            collapsed_at(v, index as int, 0) == collapsed_at(v, index as int, i as int),
        decreases cs@.len() - i,
    {
        assert(v[i as int] == cs@[i as int]@);
        if index >= cs[i].visual_range.start && index < cs[i].visual_range.end {
            return Some(i);
        }
        i += 1;
    }
    None
}

proof fn lemma_to_visual_bound(m: LineModel, offset: int)
    requires
        m.click_range().1 >= 0,
    ensures
        0 <= m.visual_at(offset) - m.prefix_len() <= max2(
            m.click_range().1 - m.click_range().0,
            0,
        ),
{
    let start = m.click_range().0 + m.hidden_marker_len();
    let end = min2(offset, m.click_range().1);
    if start <= end {
        lemma_visible_bound(m.hidden_regions(m.styles.len() as int), start, end);
    }
}

impl Line {
    /// The range in which clicks fall.
    fn click_range(&self) -> (r: Range<usize>)
        ensures
            (r.start as int, r.end as int) == self@.click_range(),
    {
        if self.line.is_fence() {
            self.fence_range()
        } else if self.line.is_thematic_break() || self.is_heading() {
            self.line.range.start..self.line.range.end
        } else {
            self.content_range()
        }
    }

    /// The length of a heading's marker, while it is hidden.
    fn hidden_marker_len(&self) -> (r: usize)
        ensures
            r == self@.hidden_marker_len(),
    {
        if self.is_heading() && !self.cursor_on_line() && !self.selection_on_line() {
            if let Some(marker) = self.line.marker_range() {
                if marker.end >= marker.start {
                    return marker.end - marker.start;
                }
            }
        }
        0
    }

    /// The delimiters that are hidden.
    fn hidden_regions(&self) -> (r: Vec<HiddenRegion>)
        ensures
            r@ == self@.hidden_regions(self@.styles.len() as int),
    {
        let ghost m = self@;
        let content = self.click_range();
        let mut out: Vec<HiddenRegion> = Vec::new();
        let mut i: usize = 0;
        while i < self.inline_styles.len()
            invariant
                m == self@,
                (content.start as int, content.end as int) == m.click_range(),
                i <= self.inline_styles@.len(),
                out@ == m.hidden_regions(i as int),
            decreases self.inline_styles@.len() - i,
        {
            let r = &self.inline_styles[i];
            assert(m.styles[i as int] == r@);
            if !self.inside(r) {
                out.push(
                    (
                        larger(r.full_range.start, content.start),
                        smaller(r.content_range.start, content.end),
                        larger(r.content_range.end, content.start),
                        smaller(r.full_range.end, content.end),
                    ),
                );
            }
            i += 1;
        }
        out
    }

    /// The length of what the markers are replaced by.
    fn prefix_len(&self) -> (r: usize)
        ensures
            r == self@.prefix_len(),
    {
        match &self.substitution {
            Some(s) => byte_len(s.as_str()),
            None => 0,
        }
    }

    /// The buffer offset at a visual index.
    fn offset_at(&self, visual_index: usize) -> (r: usize)
        requires
            self@.clicks_count(visual_index as int),
        ensures
            r == self@.offset_at(visual_index as int),
    {
        let prefix_len = self.prefix_len();
        let index = if visual_index >= prefix_len {
            visual_index - prefix_len
        } else {
            0
        };
        visual_to_buffer_pos(
            index,
            &self.click_range(),
            self.hidden_marker_len(),
            &self.hidden_regions(),
            self.line.range.end,
        )
    }

    /// The visual index of a buffer offset.
    fn visual_at(&self, offset: usize) -> (r: usize)
        requires
            self@.clicks_count(0),
        ensures
            r == self@.visual_at(offset as int),
    {
        proof {
            lemma_to_visual_bound(self@, offset as int);
        }
        buffer_to_visual_pos(
            offset,
            &self.click_range(),
            self.hidden_marker_len(),
            &self.hidden_regions(),
        ) + self.prefix_len()
    }

    /// Where the hovered reference starts in the display text.
    pub fn hovered_ref_visual(&self) -> (r: Option<usize>)
        requires
            self@.clicks_count(0),
        ensures
            match r {
                Some(v) => self@.hovered is Some && v == self@.visual_at((self@.hovered->0).0),
                None => self@.hovered is None,
            },
    {
        match &self.hovered_ref_range {
            Some(range) => Some(self.visual_at(range.start)),
            None => None,
        }
    }

    /// Whether the checkbox is at a visual index.
    fn checkbox_at(&self, visual_index: usize) -> (r: bool)
        requires
            self@.clicks_count(visual_index as int),
        ensures
            r == self@.checkbox_at(visual_index as int),
    {
        // The checkbox is at the start of the content: "[ ] " or "[x] "
        let prefix_len = self.prefix_len();
        self.line.checkbox().is_some() && visual_index >= prefix_len && visual_index < prefix_len
            + 4
    }

    /// What a drag to a visual index reaches.
    pub fn drag_target(&self, visual_index: usize, collapsed: &Vec<CollapsedDisplayText>) -> (r:
        ClickTarget)
        requires
            self@.clicks_count(visual_index as int),
        ensures
            r == self@.drag_target(visual_index as int, collapsed_view(collapsed@)),
    {
        let prefix_len = self.prefix_len();
        let index = if visual_index >= prefix_len {
            visual_index - prefix_len
        } else {
            0
        };
        match index_of_collapsed(collapsed, index) {
            Some(i) => ClickTarget::Collapsed(i),
            None => ClickTarget::Offset(self.offset_at(visual_index)),
        }
    }

    /// What a click at a visual index hits.
    pub fn click_target(&self, visual_index: usize, collapsed: &Vec<CollapsedDisplayText>) -> (r:
        ClickTarget)
        requires
            self@.clicks_count(visual_index as int),
        ensures
            r == self@.click_target(visual_index as int, collapsed_view(collapsed@)),
    {
        if self.checkbox_at(visual_index) {
            return ClickTarget::Checkbox;
        }
        self.drag_target(visual_index, collapsed)
    }

    /// What a click on the checkbox asks for.
    pub fn checkbox_action(&self) -> (r: Option<EditorAction>)
        ensures
            action_if_any(r) == (if self@.input_blocked {
                None
            } else {
                Some(EditorActionView::ToggleCheckbox { line_number: self@.line.line_number })
            }),
    {
        if self.input_blocked {
            None
        } else {
            Some(EditorAction::ToggleCheckbox { line_number: self.line.line_number })
        }
    }

    /// What a click at a buffer offset asks for.
    pub fn click_action(&self, offset: usize, how: ClickInfo) -> (r: Option<EditorAction>)
        ensures
            action_if_any(r) == (if self@.input_blocked {
                None
            } else {
                Some(self@.click_action(offset as int, how))
            }),
    {
        if self.input_blocked {
            return None;
        }
        if how.follow {
            let mut i: usize = 0;
            while i < self.inline_styles.len()
                invariant
                    i <= self.inline_styles@.len(),
                    how.follow,
                    !self@.input_blocked,
                    self@.link_at(offset as int, 0) == self@.link_at(offset as int, i as int),
                decreases self.inline_styles@.len() - i,
            {
                let r = &self.inline_styles[i];
                assert(self@.styles[i as int] == r@);
                if let Some(url) = &r.link_url {
                    if cursor_in(&r.content_range, offset) {
                        return Some(EditorAction::OpenLink { url: url.clone() });
                    }
                }
                i += 1;
            }
        }
        Some(EditorAction::Click { offset, shift: how.shift, click_count: how.click_count })
    }

    /// What a drag to a buffer offset asks for.
    pub fn drag_action(&self, offset: usize) -> (r: Option<EditorAction>)
        ensures
            action_if_any(r) == (if self@.input_blocked {
                None
            } else {
                Some(EditorActionView::Drag { offset: offset as int })
            }),
    {
        if self.input_blocked {
            None
        } else {
            Some(EditorAction::Drag { offset })
        }
    }

    /// What a click on a rule asks for: the cursor goes to the place in the `---`.
    pub fn rule_action(&self, visual_index: usize, how: ClickInfo) -> (r: Option<EditorAction>)
        requires
            self@.line.start + visual_index <= usize::MAX,
        ensures
            action_if_any(r) == (if self@.input_blocked {
                None
            } else {
                Some(
                    EditorActionView::Click {
                        offset: min2(self@.line.start + visual_index, self@.line.end),
                        shift: how.shift,
                        click_count: how.click_count,
                    },
                )
            }),
    {
        if self.input_blocked {
            return None;
        }
        let offset = smaller(self.line.range.start + visual_index, self.line.range.end);
        Some(EditorAction::Click { offset, shift: how.shift, click_count: how.click_count })
    }

    /// What a click on the image that stands for the line asks for: the image is opened,
    /// or the cursor goes to the end of the line.
    pub fn image_action(&self, open_url: &str, how: ClickInfo) -> (r: Option<EditorAction>)
        ensures
            action_if_any(r) == (if self@.input_blocked {
                None
            } else if how.follow {
                Some(EditorActionView::OpenLink { url: open_url@ })
            } else {
                Some(
                    EditorActionView::Click {
                        offset: self@.line.end,
                        shift: how.shift,
                        click_count: how.click_count,
                    },
                )
            }),
    {
        if self.input_blocked {
            None
        } else if how.follow {
            Some(EditorAction::OpenLink { url: open_url.to_owned() })
        } else {
            Some(
                EditorAction::Click {
                    offset: self.line.range.end,
                    shift: how.shift,
                    click_count: how.click_count,
                },
            )
        }
    }

    /// What the mouse is over at a visual index.
    pub fn hover(&self, visual_index: usize) -> (r: Hover)
        requires
            self@.clicks_count(visual_index as int),
            self@.clicks_count(0),
        ensures
            ({
                let at = self@.offset_at(visual_index as int);
                let found = range_at(self@.ref_ranges, at, 0);
                &&& r.over_checkbox == self@.checkbox_at(visual_index as int)
                &&& r.over_link == self@.over_link(at)
                &&& range_pair(r.ref_range) == range_pair(found)
                &&& match r.ref_visual {
                    Some(v) => found is Some && v == self@.visual_at(found->0.start as int),
                    None => found is None,
                }
            }),
    {
        let offset = self.offset_at(visual_index);
        let over_checkbox = self.checkbox_at(visual_index);
        let mut over_link = false;
        let mut i: usize = 0;
        while i < self.inline_styles.len()
            invariant
                i <= self.inline_styles@.len(),
                over_link == (exists|k: int|
                    0 <= k < i && #[trigger] links_at(self@.styles[k], offset as int)),
            decreases self.inline_styles@.len() - i,
        {
            let r = &self.inline_styles[i];
            assert(self@.styles[i as int] == r@);
            if r.link_url.is_some() && offset >= r.content_range.start && offset
                < r.content_range.end {
                assert(links_at(self@.styles[i as int], offset as int));
                over_link = true;
            }
            i += 1;
        }
        let mut ref_range: Option<Range<usize>> = None;
        let mut ref_visual: Option<usize> = None;
        let mut j: usize = 0;
        while j < self.github_ref_ranges.len()
            invariant
                j <= self.github_ref_ranges@.len(),
                ref_range is None,
                ref_visual is None,
                range_at(self@.ref_ranges, offset as int, 0) == range_at(
                    self@.ref_ranges,
                    offset as int,
                    j as int,
                ),
                self@.clicks_count(0),
                offset == self@.offset_at(visual_index as int),
                over_checkbox == self@.checkbox_at(visual_index as int),
                over_link == self@.over_link(offset as int),
            decreases self.github_ref_ranges@.len() - j,
        {
            let r = &self.github_ref_ranges[j];
            if offset >= r.start && offset < r.end {
                return Hover {
                    over_checkbox,
                    over_link,
                    ref_range: Some(r.start..r.end),
                    ref_visual: Some(self.visual_at(r.start)),
                };
            }
            j += 1;
        }
        Hover { over_checkbox, over_link, ref_range, ref_visual }
    }
}

// ---------------------------------------------------------------------------
// Laws
// ---------------------------------------------------------------------------

/// The line has the one marker `m`.
pub open spec fn has_only(v: LineModel, m: MarkerView) -> bool {
    v.line.markers == seq![m]
}

/// The line is text: it has no markers, nothing in front of it, and is no code.
pub open spec fn is_text(v: LineModel) -> bool {
    v.line.markers.len() == 0 && v.substitution is None && !v.line.in_code_block
        && v.highlights.len() == 0
}

proof fn lemma_only(v: LineModel, m: MarkerView)
    requires
        has_only(v, m),
    ensures
        v.is_fence() == (m.kind is CodeBlockFence),
        v.is_break() == (m.kind is ThematicBreak),
        v.heading_marker() == (if m.kind is Heading {
            Some(m)
        } else {
            None
        }),
        v.has_checkbox() == (m.kind is Checkbox),
        v.number_range() == (if is_numbered(m.kind) {
            Some((m.start, m.end))
        } else {
            None
        }),
{
    assert(v.line.markers[0] == m);
    let none = Seq::<MarkerView>::empty();
    assert(v.line.markers.drop_first() =~= none);
    let heading = |k: MarkerKindView| k is Heading;
    let checkbox = |k: MarkerKindView| k is Checkbox;
    let number = |k: MarkerKindView| is_numbered(k);
    assert(first_marker(none, heading) is None);
    assert(first_kind(none, checkbox) is None);
    assert(first_marker(none, number) is None);
}

proof fn lemma_text(v: LineModel)
    requires
        v.line.markers.len() == 0,
    ensures
        !v.is_fence(),
        !v.is_break(),
        v.heading_marker() is None,
        !v.has_checkbox(),
        v.number_range() is None,
        v.spacers() is None,
        v.content_range() == (v.line.start, v.line.end),
        v.styled_range() == (v.line.start, v.line.end),
        v.counted_range() == (v.line.start, v.line.end),
        v.click_range() == (v.line.start, v.line.end),
{
    assert(v.line.markers =~= seq![]);
}

/// A line is active while the cursor is in it or at one of its ends, and while the selection
/// reaches into it.
pub proof fn law_active_lines(v: LineModel, sel: (int, int))
    ensures
        v.line.start <= v.cursor <= v.line.end ==> v.is_active(),
        v.selection == Some(sel) && sel.0 < v.line.end && sel.1 > v.line.start ==> v.is_active(),
        (v.cursor < v.line.start || v.cursor > v.line.end) && v.selection is None
            ==> !v.is_active(),
        (v.cursor < v.line.start || v.cursor > v.line.end) && v.selection == Some(sel) && (sel.0
            >= v.line.end || sel.1 <= v.line.start) ==> !v.is_active(),
{
}

/// Headings are set larger, the higher the larger, down to the size of the text; but not
/// while only their `#`s are there. Code is set a little smaller.
pub proof fn law_text_sizes(v: LineModel, m: MarkerView)
    requires
        has_only(v, m),
    ensures
        v.line.in_code_block ==> v.text_size() == 90,
        m.kind is CodeBlockFence ==> v.text_size() == 90,
        !v.line.in_code_block && !(m.kind is Heading) && !(m.kind is CodeBlockFence)
            ==> v.text_size() == 100,
        m.kind matches MarkerKindView::Heading(level) ==> !v.line.in_code_block && m.end - m.start
            > level ==> {
            &&& level == 1 ==> v.text_size() == 200
            &&& level == 2 ==> v.text_size() == 175
            &&& level == 3 ==> v.text_size() == 150
            &&& level == 4 ==> v.text_size() == 125
            &&& level == 5 ==> v.text_size() == 110
            &&& level == 6 ==> v.text_size() == 100
        },
        m.kind matches MarkerKindView::Heading(level) ==> !v.line.in_code_block && m.end - m.start
            <= level ==> v.text_size() == 100,
{
    lemma_only(v, m);
    assert(v.heading_size(1) == 100);
    assert(v.line.markers[0] == m);
}

/// A thematic break is a rule, and an image on a line of its own an image, as long as the
/// line is not active.
pub proof fn law_drawn_lines(v: LineModel, m: MarkerView)
    ensures
        has_only(v, m) ==> (v.is_rule() <==> m.kind is ThematicBreak && !v.is_active()),
        v.line.markers.len() == 0 ==> !v.is_rule(),
        v.line.markers.len() > 0 ==> !v.is_image_only(),
        v.is_active() ==> !v.is_image_only(),
        v.styles.len() != 1 ==> !v.is_image_only(),
        v.styles.len() == 1 && !v.styles[0].is_image ==> !v.is_image_only(),
        v.line.markers.len() == 0 && !v.is_active() && v.styles.len() == 1 && v.styles[0].is_image
            && v.styles[0].link_url is Some && trim_right(
            chars_of(v.bytes, v.line.start, v.line.end),
        ) == chars_of(v.bytes, v.styles[0].full.0, v.styles[0].full.1) ==> v.is_image_only()
            && v.standalone_image_url() == v.styles[0].link_url,
{
    if has_only(v, m) {
        lemma_only(v, m);
    }
    if v.line.markers.len() == 0 {
        lemma_text(v);
    }
}

/// A line of text without styles is shown as it is, in one plain run.
pub proof fn law_text_shows_as_it_is(v: LineModel)
    requires
        is_text(v),
        v.styles.len() == 0,
        0 <= v.line.start < v.line.end <= v.bytes.len(),
    ensures
        v.styled().text == decode_utf8(v.bytes.subrange(v.line.start, v.line.end)),
        v.styled().runs == seq![
            TextRun {
                len: (v.line.end - v.line.start) as usize,
                code_font: false,
                bold: false,
                italic: false,
                color: LineColor::Text,
                background_color: None,
                underline: false,
                strikethrough: false,
            },
        ],
        v.styled().collapsed.len() == 0,
{
    lemma_text(v);
    let (cs, ce) = (v.line.start, v.line.end);
    lemma_two_cuts(cs, ce);
    assert(seq![cs, ce] + v.heading_cuts() + v.regions_cuts(0) + v.capture_cuts(0) =~= seq![
        cs,
        ce,
    ]);
    assert(v.cut_points() == seq![cs, ce]);
    let s = empty_styled();
    assert(v.with_spans(s, seq![cs, ce], 0) == s);
    assert(!v.span_hidden(cs, ce));
    assert(v.shown_region(cs, ce, 0) is None);
    assert(v.with_spans(s, seq![cs, ce], 1) == v.with_span(s, cs, ce));
    assert(v.flags(cs, ce, 0).code == false);
    assert(s.text + chars_of(v.bytes, cs, ce) =~= chars_of(v.bytes, cs, ce));
    assert(s.runs.push(v.span_run(cs, ce)) =~= seq![v.span_run(cs, ce)]);
    assert(v.capture(cs, ce, 0) is None);
}

proof fn lemma_two_cuts(cs: int, ce: int)
    requires
        cs < ce,
    ensures
        cut_points(seq![cs, ce], cs, ce) == seq![cs, ce],
{
    let raw = seq![cs, ce];
    assert(raw.drop_last() =~= seq![cs]);
    assert(seq![cs].drop_last() =~= seq![]);
    assert(cut_points(seq![cs].drop_last(), cs, ce) =~= seq![]);
    assert(cut_points(seq![cs], cs, ce) =~= seq![cs]);
    assert(cut_points(raw, cs, ce) =~= seq![cs, ce]);
}

proof fn lemma_cut_before_last(raw: Seq<int>, x: int, head: Seq<int>, cs: int, ce: int)
    requires
        cut_points(raw, cs, ce) == head.push(ce),
        head.len() > 0,
        head.last() < x < ce,
        cs <= x,
    ensures
        cut_points(raw.push(x), cs, ce) == head.push(x).push(ce),
{
    assert(raw.push(x).drop_last() =~= raw);
    assert(raw.push(x).last() == x);
    assert(head.push(ce).drop_last() =~= head);
    assert(head.push(ce).last() == ce);
    assert(insert_cut(head, x) == head.push(x));
    assert(insert_cut(head.push(ce), x) == insert_cut(head.push(ce).drop_last(), x).push(ce));
}

/// One region in a line of text cuts it into five parts.
proof fn lemma_region_cuts(v: LineModel, r: RegionView)
    requires
        is_text(v),
        v.styles == seq![r],
        v.line.start < r.full.0 < r.content.0 < r.content.1 < r.full.1 < v.line.end,
        r.checkbox is None,
    ensures
        !v.inside(r) ==> v.cut_points() == seq![
            v.line.start,
            r.full.0,
            r.content.0,
            r.content.1,
            r.full.1,
            v.line.end,
        ],
        v.inside(r) ==> v.cut_points() == seq![v.line.start, r.full.0, r.full.1, v.line.end],
{
    lemma_text(v);
    let (cs, ce) = (v.line.start, v.line.end);
    lemma_two_cuts(cs, ce);
    let raw = seq![cs, ce];
    assert(v.styles[0] == r);
    assert(seq![cs, ce] =~= seq![cs].push(ce));
    assert(v.regions_cuts(0) =~= seq![]);
    lemma_cut_before_last(raw, r.full.0, seq![cs], cs, ce);
    let raw1 = raw.push(r.full.0);
    let all = seq![cs, ce] + v.heading_cuts() + v.regions_cuts(1) + v.capture_cuts(0);
    if v.inside(r) {
        assert(seq![cs].push(r.full.0) =~= seq![cs, r.full.0]);
        lemma_cut_before_last(raw1, r.full.1, seq![cs, r.full.0], cs, ce);
        assert(all =~= raw1.push(r.full.1));
        assert(seq![cs, r.full.0].push(r.full.1).push(ce) =~= seq![cs, r.full.0, r.full.1, ce]);
    } else {
        assert(seq![cs].push(r.full.0) =~= seq![cs, r.full.0]);
        lemma_cut_before_last(raw1, r.content.0, seq![cs, r.full.0], cs, ce);
        let raw2 = raw1.push(r.content.0);
        let h2 = seq![cs, r.full.0].push(r.content.0);
        lemma_cut_before_last(raw2, r.content.1, h2, cs, ce);
        let raw3 = raw2.push(r.content.1);
        let h3 = h2.push(r.content.1);
        lemma_cut_before_last(raw3, r.full.1, h3, cs, ce);
        assert(all =~= raw3.push(r.full.1));
        assert(h3.push(r.full.1).push(ce) =~= seq![
            cs,
            r.full.0,
            r.content.0,
            r.content.1,
            r.full.1,
            ce,
        ]);
    }
}

/// The run of some text of a line of text with one region.
pub open spec fn part_run(r: RegionView, len: int, styled: bool) -> TextRun {
    TextRun {
        len: len as usize,
        code_font: styled && r.style.code,
        bold: styled && r.style.bold,
        italic: styled && r.style.italic,
        color: if !styled {
            LineColor::Text
        } else if r.style.strikethrough {
            LineColor::Border
        } else if r.link_url is Some {
            LineColor::Link
        } else if r.style.code {
            LineColor::Code
        } else {
            LineColor::Text
        },
        background_color: None,
        underline: styled && r.link_url is Some,
        strikethrough: styled && r.style.strikethrough,
    }
}

/// Styled text in a line loses its delimiters and has its style, as long as the cursor is
/// elsewhere; what is before and behind it is plain. While the cursor is in it, its
/// delimiters show, in its style.
#[verifier::rlimit(60)]
pub proof fn law_styled_text(v: LineModel, r: RegionView)
    requires
        is_text(v),
        v.styles == seq![r],
        0 <= v.line.start < r.full.0 < r.content.0 < r.content.1 < r.full.1 < v.line.end
            <= v.bytes.len(),
        r.checkbox is None,
        r.display_text is None,
    ensures
        ({
            let text = |a: int, b: int| decode_utf8(v.bytes.subrange(a, b));
            let (cs, ce) = (v.line.start, v.line.end);
            let s = v.styled();
            &&& v.cursor < r.full.0 || r.full.1 < v.cursor ==> {
                &&& s.text == text(cs, r.full.0) + text(r.content.0, r.content.1) + text(
                    r.full.1,
                    ce,
                )
                &&& s.runs == seq![
                    part_run(r, r.full.0 - cs, false),
                    part_run(r, r.content.1 - r.content.0, true),
                    part_run(r, ce - r.full.1, false),
                ]
            }
            &&& r.full.0 <= v.cursor <= r.full.1 ==> {
                &&& s.text == text(cs, r.full.0) + text(r.full.0, r.full.1) + text(r.full.1, ce)
                &&& s.runs == seq![
                    part_run(r, r.full.0 - cs, false),
                    part_run(r, r.full.1 - r.full.0, true),
                    part_run(r, ce - r.full.1, false),
                ]
            }
        }),
{
    lemma_text(v);
    lemma_region_cuts(v, r);
    let (cs, ce) = (v.line.start, v.line.end);
    let (f0, c0, c1, f1) = (r.full.0, r.content.0, r.content.1, r.full.1);
    let e = empty_styled();
    let cuts = v.cut_points();
    assert(v.styles[0] == r);
    assert(v.with_spans(e, cuts, 0) == e);
    lemma_span_of_text(v, r, e, cs, f0);
    let s1 = v.with_span(e, cs, f0);
    assert(v.with_spans(e, cuts, 1) == s1);
    if v.inside(r) {
        lemma_span_of_text(v, r, s1, f0, f1);
        let s2 = v.with_span(s1, f0, f1);
        assert(v.with_spans(e, cuts, 2) == s2);
        lemma_span_of_text(v, r, s2, f1, ce);
        assert(v.with_spans(e, cuts, 3) == v.with_span(s2, f1, ce));
        assert(v.styled().text =~= chars_of(v.bytes, cs, f0) + chars_of(v.bytes, f0, f1)
            + chars_of(v.bytes, f1, ce));
        assert(v.styled().runs =~= seq![
            part_run(r, f0 - cs, false),
            part_run(r, f1 - f0, true),
            part_run(r, ce - f1, false),
        ]);
    } else {
        assert(v.region_hides(v.styles[0], f0, c0));
        assert(v.with_spans(e, cuts, 2) == s1);
        lemma_span_of_text(v, r, s1, c0, c1);
        let s3 = v.with_span(s1, c0, c1);
        assert(v.with_spans(e, cuts, 3) == s3);
        assert(v.region_hides(v.styles[0], c1, f1));
        assert(v.with_spans(e, cuts, 4) == s3);
        lemma_span_of_text(v, r, s3, f1, ce);
        assert(v.with_spans(e, cuts, 5) == v.with_span(s3, f1, ce));
        assert(v.styled().text =~= chars_of(v.bytes, cs, f0) + chars_of(v.bytes, c0, c1)
            + chars_of(v.bytes, f1, ce));
        assert(v.styled().runs =~= seq![
            part_run(r, f0 - cs, false),
            part_run(r, c1 - c0, true),
            part_run(r, ce - f1, false),
        ]);
    }
}

proof fn lemma_span_of_text(v: LineModel, r: RegionView, s: StyledView, a: int, b: int)
    requires
        is_text(v),
        v.styles == seq![r],
        v.line.start < r.full.0 < r.content.0 < r.content.1 < r.full.1 < v.line.end,
        r.checkbox is None,
        r.display_text is None,
        (a == v.line.start && b == r.full.0) || (a == r.full.1 && b == v.line.end) || (!v.inside(r)
            && a == r.content.0 && b == r.content.1) || (v.inside(r) && a == r.full.0 && b
            == r.full.1),
    ensures
        v.with_span(s, a, b) == s.then_run(
            chars_of(v.bytes, a, b),
            part_run(
                r,
                b - a,
                !(a == v.line.start && b == r.full.0) && !(a == r.full.1 && b == v.line.end),
            ),
        ),
{
    lemma_text(v);
    assert(v.styles[0] == r);
    assert(!v.region_hides(r, a, b));
    assert(!v.span_hidden(a, b)) by {
        assert forall|i: int| 0 <= i < v.styles.len() implies !(#[trigger] v.region_hides(
            v.styles[i],
            a,
            b,
        )) by {
            assert(v.styles[i] == r);
        }
    }
    assert(v.shown_region(a, b, 1) is None);
    assert(v.shown_region(a, b, 0) is None);
    assert(v.flags(a, b, 0).checkbox is None);
    assert(v.capture(a, b, 0) is None);
    let f = v.flags(a, b, 1);
    assert(v.span_run(a, b) == part_run(
        r,
        b - a,
        !(a == v.line.start && b == r.full.0) && !(a == r.full.1 && b == v.line.end),
    ));
}

/// A region that has another text to show is shown by it, as a link, while the cursor is
/// elsewhere.
pub proof fn law_shortened_text(v: LineModel, r: RegionView, s: StyledView)
    requires
        is_text(v),
        v.styles == seq![r],
        v.line.start <= r.full.0 < r.full.1 <= v.line.end,
        r.content == r.full,
        r.display_text is Some,
    ensures
        ({
            let shown = r.display_text->0;
            let n = encode_utf8(shown).len();
            let at = encode_utf8(s.text).len();
            let after = v.with_span(s, r.full.0, r.full.1);
            &&& v.cursor < r.full.0 || r.full.1 < v.cursor ==> {
                &&& after.text == s.text + shown
                &&& after.runs.len() == s.runs.len() + 1
                &&& after.runs.last().color == LineColor::Link && after.runs.last().underline
                &&& after.runs.last().len == n as usize
                &&& after.collapsed == s.collapsed.push(
                    CollapsedView {
                        visual: (at as int, (at + n) as int),
                        buffer: r.full,
                        display_text: shown,
                        buffer_text: decode_utf8(v.bytes.subrange(r.full.0, r.full.1)),
                    },
                )
            }
            &&& r.full.0 <= v.cursor <= r.full.1 ==> after.text == s.text + decode_utf8(
                v.bytes.subrange(r.full.0, r.full.1),
            ) && after.collapsed == s.collapsed
        }),
{
    lemma_text(v);
    assert(v.styles[0] == r);
    assert(!v.span_hidden(r.full.0, r.full.1)) by {
        assert forall|i: int| 0 <= i < v.styles.len() implies !(#[trigger] v.region_hides(
            v.styles[i],
            r.full.0,
            r.full.1,
        )) by {
            assert(v.styles[i] == r);
        }
    }
    assert(v.shown_region(r.full.0, r.full.1, 1) is None);
}

/// What a part of a line is shown in: struck-through text is muted, then come checkboxes,
/// links, captures and code, and the rest is plain.
pub proof fn law_color_order(v: LineModel, f: SpanFlags, a: int, b: int)
    ensures
        f.strikethrough ==> v.span_color(f, a, b) == LineColor::Border,
        !f.strikethrough && f.checkbox == Some(true) ==> v.span_color(f, a, b)
            == LineColor::CheckboxChecked,
        !f.strikethrough && f.checkbox == Some(false) ==> v.span_color(f, a, b)
            == LineColor::CheckboxUnchecked,
        !f.strikethrough && f.checkbox is None && f.link ==> v.span_color(f, a, b)
            == LineColor::Link,
        !f.strikethrough && f.checkbox is None && !f.link && v.highlights.len() > 0
            && v.highlights[0].range.start <= a && b <= v.highlights[0].range.end ==> v.span_color(
            f,
            a,
            b,
        ) == LineColor::Capture(v.highlights[0].highlight_id),
        !f.strikethrough && f.checkbox is None && !f.link && v.highlights.len() == 0 && f.code
            && !v.line.in_code_block && v.line.markers.len() == 0 ==> v.span_color(f, a, b)
            == LineColor::Code,
        !f.strikethrough && f.checkbox is None && !f.link && v.highlights.len() == 0 && (!f.code
            || v.line.in_code_block) ==> v.span_color(f, a, b) == LineColor::Text,
{
    if v.line.markers.len() == 0 {
        lemma_text(v);
    }
    if v.highlights.len() == 0 {
        assert(v.capture(a, b, 0) is None);
    }
}

/// The first capture that holds all of a part has its color; one that holds less has not.
pub proof fn law_captures_hold_all(v: LineModel, a: int, b: int, i: int)
    requires
        0 <= i < v.highlights.len(),
    ensures
        v.highlights[i].range.start <= a && b <= v.highlights[i].range.end ==> v.capture(a, b, i)
            == Some(LineColor::Capture(v.highlights[i].highlight_id)),
        v.highlights[i].range.start > a || b > v.highlights[i].range.end ==> v.capture(a, b, i)
            == v.capture(a, b, i + 1),
{
}

/// The styles of all the regions that hold of a part hold of it together.
pub proof fn law_styles_add_up(v: LineModel, a: int, b: int, k: int)
    requires
        0 <= k < v.styles.len(),
    ensures
        ({
            let before = v.flags(a, b, k);
            let after = v.flags(a, b, k + 1);
            let r = v.styles[k];
            let reach = if r.full.0 <= v.cursor <= r.full.1 {
                r.full
            } else {
                r.content
            };
            let holds = reach.0 <= a && b <= reach.1;
            &&& after.bold <==> before.bold || (holds && r.style.bold)
            &&& after.italic <==> before.italic || (holds && r.style.italic)
            &&& after.code <==> before.code || (holds && r.style.code)
            &&& after.strikethrough <==> before.strikethrough || (holds && r.style.strikethrough)
            &&& after.link <==> before.link || (holds && r.link_url is Some)
            &&& before.checkbox is Some ==> after.checkbox == before.checkbox
            &&& before.checkbox is None && holds ==> after.checkbox == r.checkbox
            &&& before.checkbox is None && !holds ==> after.checkbox is None
        }),
{
}

/// A fence line is shown as it is: the fence in one color and what follows it in another,
/// both in the code font.
pub proof fn law_fence_lines(v: LineModel, c: char, n: int, info: Seq<char>)
    requires
        v.is_fence(),
        v.substitution is None,
        c == '`' || c == '~',
        n > 0,
        info.len() > 0,
        info[0] != c,
        chars_of(v.bytes, v.fence_range().0, v.fence_range().1) == Seq::new(
            n as nat,
            |i: int| c,
        ) + info,
    ensures
        ({
            let s = v.styled();
            let fence = Seq::new(n as nat, |i: int| c);
            &&& s.text == fence + info
            &&& s.runs.len() == 2
            &&& s.runs[0].color == LineColor::Fence && s.runs[1].color == LineColor::FenceLang
            &&& s.runs[0].code_font && s.runs[1].code_font
            &&& s.runs[0].len == encode_utf8(fence).len() as usize
            &&& s.runs[1].len == encode_utf8(info).len() as usize
            &&& !s.runs[0].bold && !s.runs[1].bold && !s.runs[0].underline && !s.runs[1].underline
        }),
{
    let fence = Seq::new(n as nat, |i: int| c);
    let text = fence + info;
    lemma_same_chars(text, c, 0, n);
    assert(text.subrange(0, n) =~= fence);
    assert(text.subrange(n, text.len() as int) =~= info);
    assert(v.styled().text =~= fence + info);
}

proof fn lemma_same_chars(text: Seq<char>, c: char, i: int, n: int)
    requires
        0 <= i <= n < text.len(),
        forall|k: int| i <= k < n ==> #[trigger] text[k] == c,
        text[n] != c,
    ensures
        same_chars(text, c, i) == n - i,
    decreases n - i,
{
    if i < n {
        lemma_same_chars(text, c, i + 1, n);
    }
}

/// A thematic break keeps its text, which is transparent unless the line is active.
pub proof fn law_break_lines(v: LineModel, m: MarkerView)
    requires
        has_only(v, m),
        m.kind is ThematicBreak,
        v.substitution is None,
    ensures
        ({
            let s = v.styled();
            &&& s.text == decode_utf8(v.bytes.subrange(v.line.start, v.line.end))
            &&& s.runs.len() == 1
            &&& s.runs[0].len == (v.line.end - v.line.start) as usize
            &&& v.is_active() ==> s.runs[0].color == LineColor::Text
            &&& !v.is_active() ==> s.runs[0].color == LineColor::Transparent
        }),
{
    lemma_only(v, m);
    assert(v.styled().text =~= chars_of(v.bytes, v.line.start, v.line.end));
}

/// An empty line is shown as one space, and any other as it is styled, behind its prefix.
pub proof fn law_prefixes(v: LineModel, text: Seq<char>, runs: Seq<TextRun>)
    ensures
        v.prefix is None && v.styled().text.len() == 0 ==> v.prefixed().text == seq![' '],
        v.prefix is None && v.styled().text.len() > 0 ==> v.prefixed() == v.styled(),
        v.prefix == Some((text, runs)) && text.len() > 0 ==> v.prefixed().text == text
            + v.styled().text && v.prefixed().runs == runs + v.styled().runs,
{
}

/// What stands for the markers is shown in the code font in front of the line.
pub proof fn law_substituted_markers(v: LineModel, text: Seq<char>)
    requires
        v.substitution == Some(text),
        text.len() > 0,
        !v.has_checkbox(),
    ensures
        v.prefix_styled().text == text,
        v.prefix_styled().runs == seq![
            TextRun {
                len: encode_utf8(text).len() as usize,
                code_font: true,
                bold: false,
                italic: false,
                color: LineColor::Text,
                background_color: None,
                underline: false,
                strikethrough: false,
            },
        ],
        v.prefix_styled().collapsed.len() == 0,
{
    assert(v.prefix_styled().text =~= text);
    assert(v.prefix_styled().runs =~= seq![plain_text_run(byte_count(text), true, LineColor::Text)]);
}

/// In a line of text with one styled region that the cursor is not in, a place is shown as
/// far from the start of the line as it is, less the delimiters that are behind it.
pub proof fn law_places_skip_the_delimiters(v: LineModel, r: RegionView, offset: int, len: int)
    requires
        is_text(v),
        v.styles == seq![r],
        v.line.start <= r.full.0 < r.content.0 < r.content.1 < r.full.1 <= v.line.end,
        v.line.start <= offset <= v.line.end,
        len >= v.line.end - v.line.start,
    ensures
        ({
            let outside = v.cursor < r.full.0 || r.full.1 < v.cursor;
            let at = v.visual_pos(offset, len);
            &&& !outside ==> at == offset - v.line.start
            &&& outside && offset <= r.full.0 ==> at == offset - v.line.start
            &&& outside && r.content.0 < offset <= r.content.1 ==> at == offset - v.line.start - (
            r.content.0 - r.full.0)
            &&& outside && offset > r.full.1 ==> at == offset - v.line.start - (r.content.0
                - r.full.0) - (r.full.1 - r.content.1)
        }),
{
    lemma_text(v);
    assert(v.styles[0] == r);
    assert(v.regions_hidden_before(offset, (v.line.start, v.line.end), 0) == 0);
    assert(v.regions_hidden_before(offset, (v.line.start, v.line.end), 1)
        == v.region_hidden_before(r, offset, (v.line.start, v.line.end)));
}

/// Without styles every place of a line of text is shown where it is, and the cursor with
/// it; on other lines there is none.
pub proof fn law_places_of_text(v: LineModel, offset: int, len: int)
    requires
        is_text(v),
        v.styles.len() == 0,
        v.line.start < v.line.end,
        len >= v.line.end - v.line.start,
    ensures
        v.line.start <= offset <= v.line.end ==> v.visual_pos(offset, len) == offset - v.line.start,
        offset > v.line.end ==> v.visual_pos(offset, len) == v.line.end - v.line.start,
        v.line.start <= v.cursor <= v.line.end ==> v.visual_cursor(len) == Some(
            v.cursor - v.line.start,
        ),
        v.cursor < v.line.start || v.line.end < v.cursor ==> v.visual_cursor(len) is None,
{
    lemma_text(v);
}

/// What is selected of a line of text without styles is where the selection and the line
/// meet.
pub proof fn law_selection_of_text(v: LineModel, sel: (int, int), len: int)
    requires
        is_text(v),
        v.styles.len() == 0,
        v.line.start < v.line.end,
        len >= v.line.end - v.line.start,
        v.selection == Some(sel),
        sel.0 < sel.1,
    ensures
        sel.1 <= v.line.start || sel.0 >= v.line.end ==> v.visual_selection(len) is None,
        sel.0 < v.line.end && sel.1 > v.line.start ==> v.visual_selection(len) == Some(
            (
                if sel.0 > v.line.start {
                    sel.0 - v.line.start
                } else {
                    0
                },
                if sel.1 < v.line.end {
                    sel.1 - v.line.start
                } else {
                    v.line.end - v.line.start
                },
            ),
        ),
{
    let s = if sel.0 > v.line.start {
        sel.0
    } else {
        v.line.start
    };
    let e = if sel.1 < v.line.end {
        sel.1
    } else {
        v.line.end
    };
    law_places_of_text(v, s, len);
    law_places_of_text(v, e, len);
}

/// The marker of a heading shows while the line is active, and only then.
pub proof fn law_heading_marks(v: LineModel, m: MarkerView, a: int, b: int)
    requires
        has_only(v, m),
        m.kind is Heading,
        m.start <= a <= b <= m.end,
        v.styles.len() == 0,
        v.spacers() == Some((m.start, m.end)),
    ensures
        v.span_hidden(a, b) <==> !v.is_active(),
{
    lemma_only(v, m);
}

/// A background under part of a run splits it in three, and keeps everything else of it.
pub proof fn law_background_splits(run: TextRun, range: Range<usize>, background: LineColor)
    requires
        0 < range.start < range.end < run.len,
    ensures
        with_background(seq![run], seq![range], background) == seq![
            TextRun { len: range.start, ..run },
            TextRun {
                len: (range.end - range.start) as usize,
                background_color: Some(background),
                ..run
            },
            TextRun { len: (run.len - range.end) as usize, ..run },
        ],
{
    let ranges = seq![range];
    let end = run.len as int;
    let (a, b) = (range.start as int, range.end as int);
    assert(ranges[0] == range);
    assert(seq![run].drop_last() =~= seq![]);
    assert(run_bytes(seq![run].drop_last()) == 0);
    assert(overlaps(ranges[0], 0, end));
    assert(touched(ranges, 0, end));
    lemma_one_cut(range, 0, end, 0);
    lemma_one_cut(range, 0, end, a);
    lemma_one_cut(range, 0, end, b);
    assert(!marked(ranges, 0, end, 0)) by {
        assert forall|i: int| 0 <= i < ranges.len() implies !(#[trigger] marks(
            ranges[i],
            0,
            end,
            0,
        )) by {
            assert(ranges[i] == range);
        }
    }
    assert(marks(ranges[0], 0, end, a));
    assert(marked(ranges, 0, end, a));
    assert(!marked(ranges, 0, end, b)) by {
        assert forall|i: int| 0 <= i < ranges.len() implies !(#[trigger] marks(
            ranges[i],
            0,
            end,
            b,
        )) by {
            assert(ranges[i] == range);
        }
    }
    assert(pieces(run, ranges, background, 0, end, end) =~= seq![]);
    assert(pieces(run, ranges, background, 0, end, b) =~= seq![
        TextRun { len: (end - b) as usize, ..run },
    ]);
    assert(pieces(run, ranges, background, 0, end, a) =~= seq![
        TextRun { len: (b - a) as usize, background_color: Some(background), ..run },
        TextRun { len: (end - b) as usize, ..run },
    ]);
    assert(with_background(seq![run].drop_last(), ranges, background) =~= seq![]);
    assert(with_background(seq![run], ranges, background) =~= pieces(
        run,
        ranges,
        background,
        0,
        end,
        0,
    ));
}

proof fn lemma_one_cut(range: Range<usize>, start: int, end: int, pos: int)
    requires
        overlaps(range, start, end),
    ensures
        first_cut(seq![range], start, end, pos, 1) == min2(end, cut_of(range, pos, end)),
{
    assert(seq![range][0] == range);
    assert(first_cut(seq![range], start, end, pos, 0) == end);
}

/// A background beside a run leaves the run as it is, and one over all of it changes nothing
/// but its background.
pub proof fn law_background_of_a_run(run: TextRun, range: Range<usize>, background: LineColor)
    requires
        range.start < range.end,
        0 < run.len,
    ensures
        range.start >= run.len ==> with_background(seq![run], seq![range], background) == seq![run],
        range.start == 0 && range.end >= run.len ==> with_background(
            seq![run],
            seq![range],
            background,
        ) == seq![TextRun { background_color: Some(background), ..run }],
{
    let ranges = seq![range];
    let end = run.len as int;
    assert(ranges[0] == range);
    assert(seq![run].drop_last() =~= seq![]);
    assert(run_bytes(seq![run].drop_last()) == 0);
    assert(with_background(seq![run].drop_last(), ranges, background) =~= seq![]);
    if range.start >= run.len {
        assert(!touched(ranges, 0, end)) by {
            assert forall|i: int| 0 <= i < ranges.len() implies !(#[trigger] overlaps(
                ranges[i],
                0,
                end,
            )) by {
                assert(ranges[i] == range);
            }
        }
        assert(with_background(seq![run], ranges, background) =~= seq![run]);
    }
    if range.start == 0 && range.end >= run.len {
        assert(overlaps(ranges[0], 0, end));
        assert(marks(ranges[0], 0, end, 0));
        lemma_one_cut(range, 0, end, 0);
        assert(pieces(run, ranges, background, 0, end, end) =~= seq![]);
        assert(pieces(run, ranges, background, 0, end, 0) =~= seq![
            TextRun { background_color: Some(background), ..run },
        ]);
        assert(with_background(seq![run], ranges, background) =~= pieces(
            run,
            ranges,
            background,
            0,
            end,
            0,
        ));
    }
}

/// A quote, an indentation and a list item have a spacer, and no other marker has. It is as
/// wide as the marker, starts where the marker does, and is muted in a completed task. A list
/// item shows its number or its bullet.
pub proof fn law_marker_spacers(v: LineModel, m: MarkerView)
    requires
        has_only(v, m),
        m.start <= m.end,
    ensures
        ({
            let ss = v.spacers_from(0);
            let quote = m.kind is BlockQuote;
            let indent = m.kind is Indent;
            let item = m.kind is ListItem;
            &&& !quote && !indent && !item ==> ss.len() == 0
            &&& quote || indent || item ==> {
                &&& ss.len() == 1
                &&& ss[0].marker_start == m.start && ss[0].chars == m.end - m.start
                &&& v.line.in_checked_task ==> ss[0].color == LineColor::Selection
                &&& !v.line.in_checked_task && item ==> ss[0].color == LineColor::Text
                &&& !v.line.in_checked_task && !item ==> ss[0].color == LineColor::Border
                &&& v.selection is None ==> !ss[0].selected
                &&& v.selection matches Some(sel) ==> (ss[0].selected <==> sel.0 < m.end && sel.1
                    > m.start)
                &&& v.cursor < m.start || v.cursor >= m.end ==> ss[0].cursor is None
            }
            &&& quote ==> ss[0].kind is Quote
            &&& indent ==> ss[0].kind is Indent
            &&& m.kind matches MarkerKindView::ListItem { ordered, unordered_marker, .. } ==> {
                &&& ordered ==> ss[0].kind == SpacerKindView::Label(
                    decode_utf8(v.bytes.subrange(m.start, m.end)),
                )
                &&& !ordered && unordered_marker == Some(crate::marker::UnorderedMarker::Minus)
                    ==> ss[0].kind == SpacerKindView::Label(seq!['•', ' '])
                &&& !ordered && unordered_marker == Some(crate::marker::UnorderedMarker::Star)
                    ==> ss[0].kind == SpacerKindView::Label(seq!['◦', ' '])
                &&& !ordered && unordered_marker == Some(crate::marker::UnorderedMarker::Plus)
                    ==> ss[0].kind == SpacerKindView::Label(seq!['‣', ' '])
                &&& !ordered && unordered_marker is None ==> ss[0].kind == SpacerKindView::Label(
                    seq!['•', ' '],
                )
            }
        }),
{
    reveal_strlit("• ");
    reveal_strlit("◦ ");
    reveal_strlit("‣ ");
    assert("• "@ =~= seq!['•', ' ']);
    assert("◦ "@ =~= seq!['◦', ' ']);
    assert("‣ "@ =~= seq!['‣', ' ']);
    assert(v.line.markers[0] == m);
    assert(v.spacers_from(1).len() == 0);
}

/// Spacers stand in the order of their markers from the last to the first.
pub proof fn law_spacers_in_reverse(v: LineModel, i: int)
    requires
        0 <= i < v.line.markers.len(),
    ensures
        ({
            let k = v.line.markers[i].kind;
            let rest = v.spacers_from(i + 1);
            let all = v.spacers_from(i);
            &&& k is BlockQuote || k is Indent || k is ListItem ==> all.drop_last() == rest
                && all.last().marker_start == v.line.markers[i].start
            &&& !(k is BlockQuote || k is Indent || k is ListItem) ==> all == rest
        }),
{
    let rest = v.spacers_from(i + 1);
    let m = v.line.markers[i];
    if m.kind is BlockQuote || m.kind is Indent || m.kind is ListItem {
        assert(v.spacers_from(i).drop_last() =~= rest);
    }
}

/// A web address and an absolute path stand for themselves; any other path is looked for in
/// the directory of the document, if it has one.
pub proof fn law_image_sources(v: LineModel, rest: Seq<char>, path: Seq<char>, base: Seq<char>)
    requires
        path.len() > 0,
        '\0' <= path[0] <= '\u{7f}',
        path[0] != 'h',
    ensures
        v.image_source("http://"@ + rest, false) == ImageSourceView::Url("http://"@ + rest),
        v.image_source("https://"@ + rest, true) == ImageSourceView::Url("https://"@ + rest),
        v.image_source(path, true) == ImageSourceView::File(path),
        v.base_path is None ==> v.image_source(path, false) == ImageSourceView::File(path),
        v.base_path == Some(base) ==> v.image_source(path, false) == (ImageSourceView::Relative {
            base,
            path,
        }),
{
    lemma_encode_concat("http://"@, rest);
    lemma_encode_concat("https://"@, rest);
    let h = encode_utf8("http://"@);
    let hs = encode_utf8("https://"@);
    assert(encode_utf8("http://"@ + rest).subrange(0, h.len() as int) =~= h);
    assert(encode_utf8("https://"@ + rest).subrange(0, hs.len() as int) =~= hs);
    reveal_strlit("http://");
    reveal_strlit("https://");
    is_ascii_chars_encode_utf8("http://"@);
    is_ascii_chars_encode_utf8("https://"@);
    assert(h[0] == 0x68 && hs[0] == 0x68);
    let p = encode_utf8(path);
    let first = seq![path[0]];
    assert(path =~= first + path.drop_first());
    lemma_encode_concat(first, path.drop_first());
    if is_web(path) {
        let n = if matches_at(p, h, 0) {
            h.len() as int
        } else {
            hs.len() as int
        };
        assert(p.subrange(0, n)[0] == p[0]);
        assert(p[0] == 0x68);
        assert(first[0] == path[0]);
        assert(is_ascii_chars(first));
        is_ascii_chars_encode_utf8(first);
        assert(encode_utf8(first)[0] == first[0] as u8);
        assert(p[0] == encode_utf8(first)[0]);
        assert('h' as u8 == 0x68);
    }
}

/// The first four bytes behind what stands for the markers are the checkbox, if the line has
/// one.
pub proof fn law_checkbox_clicks(v: LineModel, m: MarkerView, index: int, cs: Seq<CollapsedView>)
    requires
        has_only(v, m),
        v.substitution is None,
    ensures
        m.kind is Checkbox && 0 <= index < 4 ==> v.click_target(index, cs) == ClickTarget::Checkbox,
        !(m.kind is Checkbox) || index >= 4 ==> v.click_target(index, cs) == v.drag_target(
            index,
            cs,
        ) && !(v.click_target(index, cs) is Checkbox),
{
    lemma_only(v, m);
}

/// A click on a shortened text hits that text, the first that shows there; any other hits the
/// place in the buffer.
pub proof fn law_clicks_on_shortened_text(
    v: LineModel,
    index: int,
    cs: Seq<CollapsedView>,
    i: int,
)
    requires
        v.substitution is None,
        index >= 0,
        cs.len() <= usize::MAX,
    ensures
        0 <= i < cs.len() && cs[i].visual.0 <= index < cs[i].visual.1 && (forall|k: int|
            0 <= k < i ==> !((#[trigger] cs[k]).visual.0 <= index < cs[k].visual.1))
            ==> v.drag_target(index, cs) == ClickTarget::Collapsed(i as usize),
        (forall|k: int|
            0 <= k < cs.len() ==> !((#[trigger] cs[k]).visual.0 <= index < cs[k].visual.1))
            ==> v.drag_target(index, cs) == ClickTarget::Offset(v.offset_at(index) as usize),
{
    if 0 <= i < cs.len() && forall|k: int|
        0 <= k < i ==> !((#[trigger] cs[k]).visual.0 <= index < cs[k].visual.1) {
        lemma_collapsed_skip(cs, index, 0, i);
    }
    if forall|k: int|
        0 <= k < cs.len() ==> !((#[trigger] cs[k]).visual.0 <= index < cs[k].visual.1) {
        lemma_collapsed_skip(cs, index, 0, cs.len() as int);
    }
}

proof fn lemma_collapsed_skip(cs: Seq<CollapsedView>, index: int, from: int, to: int)
    requires
        0 <= from <= to <= cs.len(),
        forall|k: int|
            from <= k < to ==> !((#[trigger] cs[k]).visual.0 <= index < cs[k].visual.1),
    ensures
        collapsed_at(cs, index, from) == collapsed_at(cs, index, to),
    decreases to - from,
{
    if from < to {
        assert(!(cs[from].visual.0 <= index < cs[from].visual.1));
        lemma_collapsed_skip(cs, index, from + 1, to);
    }
}

/// In a line of text a click falls on the place that shows there: the visual index counted
/// from the start of the line, not beyond its end.
pub proof fn law_clicks_on_text(v: LineModel, index: int)
    requires
        is_text(v),
        v.styles.len() == 0,
        v.line.start < v.line.end,
        index >= 0,
    ensures
        v.line.start + index <= v.line.end ==> v.offset_at(index) == v.line.start + index,
        v.line.start + index > v.line.end ==> v.offset_at(index) == v.line.end,
{
    lemma_text(v);
    assert(v.hidden_regions(0) =~= seq![]);
}

/// With control held a click on a link follows it, its end included; any other click puts the
/// cursor there.
pub proof fn law_link_clicks(v: LineModel, r: RegionView, offset: int, how: ClickInfo)
    requires
        v.styles == seq![r],
    ensures
        ({
            let on = r.link_url is Some && r.content.0 <= offset <= r.content.1;
            let a = v.click_action(offset, how);
            &&& how.follow && on ==> a == (EditorActionView::OpenLink { url: r.link_url->0 })
            &&& !(how.follow && on) ==> a == (EditorActionView::Click {
                offset,
                shift: how.shift,
                click_count: how.click_count,
            })
            &&& v.over_link(offset) <==> r.link_url is Some && r.content.0 <= offset < r.content.1
        }),
{
    assert(v.styles[0] == r);
    assert(v.link_at(offset, 1) is None);
    if r.link_url is Some && r.content.0 <= offset < r.content.1 {
        assert(links_at(v.styles[0], offset));
    }
}

/// The range that holds a byte is the first that does.
pub proof fn law_ranges_under_a_byte(rs: Seq<Range<usize>>, pos: int, i: int)
    requires
        0 <= i < rs.len(),
    ensures
        rs[i].start <= pos < rs[i].end ==> range_at(rs, pos, i) == Some(rs[i]),
        !(rs[i].start <= pos < rs[i].end) ==> range_at(rs, pos, i) == range_at(rs, pos, i + 1),
        range_at(rs, pos, rs.len() as int) is None,
{
}

/// Hidden delimiters take no room: a byte that is hidden adds nothing to the visual index,
/// and any other adds one.
pub proof fn law_hidden_bytes_take_no_room(
    regions: Seq<HiddenRegion>,
    r: HiddenRegion,
    from: int,
    to: int,
)
    requires
        from <= to,
    ensures
        visible(regions, from, from) == 0,
        regions == seq![r] && (r.0 <= to < r.1 || r.2 <= to < r.3) ==> visible(
            regions,
            from,
            to + 1,
        ) == visible(regions, from, to),
        regions == seq![r] && !(r.0 <= to < r.1 || r.2 <= to < r.3) ==> visible(
            regions,
            from,
            to + 1,
        ) == visible(regions, from, to) + 1,
        regions.len() == 0 ==> visible(regions, from, to) == to - from,
    decreases to - from,
{
    if regions == seq![r] {
        assert(regions[0] == r);
        assert(hides(regions[0], to) == (r.0 <= to < r.1 || r.2 <= to < r.3));
        if is_hidden(regions, to) {
            let i = choose|i: int| 0 <= i < regions.len() && #[trigger] hides(regions[i], to);
            assert(regions[i] == r);
        }
    }
    if from < to {
        law_hidden_bytes_take_no_room(regions, r, from, to - 1);
    }
}

/// The selection has its own background, and changes have theirs, on top of it; without
/// either the runs stay as they are.
pub proof fn law_backgrounds(v: LineModel, s: int, e: int)
    ensures
        ({
            let p = v.prefixed();
            let len = encode_utf8(p.text).len() as int;
            &&& v.selection is None ==> v.selected_runs() == p.runs
            &&& v.visual_selection(len) == Some((s, e)) ==> v.selected_runs() == with_background(
                p.runs,
                seq![Range { start: s as usize, end: e as usize }],
                LineColor::Selection,
            )
            &&& !v.show_changed ==> v.shown_runs() == v.selected_runs()
            &&& v.changed.len() == 0 ==> v.shown_runs() == v.selected_runs()
            &&& v.show_changed && v.visual_changes(len, v.changed.len() as int).len() > 0
                ==> v.shown_runs() == with_background(
                v.selected_runs(),
                v.visual_changes(len, v.changed.len() as int),
                LineColor::InlineHighlight,
            )
        }),
{
}

/// A change of a line of text shows where it is, counted from the start of the line.
pub proof fn law_changes_of_text(v: LineModel, r: Range<usize>, len: int)
    requires
        is_text(v),
        v.styles.len() == 0,
        v.line.start < v.line.end,
        len >= v.line.end - v.line.start,
        v.changed == seq![r],
        r.start < r.end,
        v.line.start + r.end <= v.line.end,
    ensures
        v.visual_changes(len, 1) == seq![r],
{
    law_places_of_text(v, v.line.start + r.start, len);
    law_places_of_text(v, v.line.start + r.end, len);
    assert(v.changed[0] == r);
    assert(v.visual_changes(len, 0) =~= seq![]);
    assert(v.visual_changes(len, 1) =~= seq![r]);
}

/// A place of a line of text is shown as far from its start as it is, and a click there comes
/// back to it.
pub proof fn law_text_round_trips(v: LineModel, offset: int)
    requires
        is_text(v),
        v.styles.len() == 0,
        v.line.start < v.line.end,
        v.line.start <= offset <= v.line.end,
    ensures
        v.visual_at(offset) == offset - v.line.start,
        v.offset_at(v.visual_at(offset)) == offset,
{
    lemma_text(v);
    let none = v.hidden_regions(0);
    assert(none =~= seq![]);
    if offset > v.line.start {
        law_hidden_bytes_take_no_room(none, (0, 0, 0, 0), v.line.start, offset);
    }
    law_clicks_on_text(v, offset - v.line.start);
}

/// A line whose markers are all silent has nothing in their place; a heading has what stands
/// for it, behind the blanks in front of it.
pub proof fn law_text_for_markers(m: LineMarkersView, marker: MarkerView, bytes: Seq<u8>)
    ensures
        m.markers.len() == 0 ==> marker_text(m, bytes).len() == 0,
        m.markers == seq![marker] && !(marker.kind is Heading) && !(marker.kind is ThematicBreak)
            ==> marker_text(m, bytes).len() == 0,
        m.markers == seq![marker] && (marker.kind is Heading || marker.kind is ThematicBreak)
            ==> marker_text(m, bytes) == blank_text(bytes, m.start, m.end)
            + marker.kind.substitution(),
{
    if m.markers == seq![marker] {
        let none = Seq::<MarkerView>::empty();
        assert(m.markers[0] == marker);
        assert(seq![marker] + none =~= m.markers);
        crate::marker::law_what_stands_for_markers(marker, none);
        assert(substitutions(none) =~= seq![]);
        assert(Seq::<char>::empty() + marker.kind.substitution() =~= marker.kind.substitution());
        crate::marker::law_silent_markers(marker.kind);
        crate::marker::law_where_prefixes_end(none, marker, m.start);
        assert(none.push(marker) =~= m.markers);
        assert forall|i: int| 0 <= i < m.markers.len() implies #[trigger] m.markers[i]
            == marker by {}
    }
}

} // verus!
