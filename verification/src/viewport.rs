//! What the window shows of the document: the title, the lines that are searched for
//! references, the cursor position in the status bar, the marks of find matches and folds.
use crate::marker::MarkerKind;
use crate::outline::{current_heading_index, headings_in_order, HeadingInfo};
use crate::rope::{
    break_ends_at, lemma_line_of_monotone, line_count, line_of, rope_byte_to_line, rope_bytes,
    rope_line_count, rope_line_to_byte, rope_slice, rope_text, starts_line,
};
use crate::text::{chars_of, is_slice, lemma_ascii_boundary, lemma_boundary_tail};
use crate::theme::ThemeColor;
use std::ops::Range;
use unicode_segmentation::UnicodeSegmentation;
use vstd::prelude::*;
use vstd::string::*;
use vstd::utf8::*;

verus! {

// ---------------------------------------------------------------------------
// The window title
// ---------------------------------------------------------------------------

/// The native window title: the file name with a `●` dirty marker.
pub fn window_title(name: Option<&str>, dirty: bool) -> (r: String)
    ensures
        r@ == (if dirty {
            "● "@
        } else {
            ""@
        }) + (match name {
            Some(n) => n@,
            None => "untitled"@,
        }),
{
    let name = match name {
        Some(n) => n,
        None => "untitled",
    };
    let mut title = if dirty {
        "● ".to_owned()
    } else {
        "".to_owned()
    };
    title.append(name);
    title
}

// ---------------------------------------------------------------------------
// The lines that are searched
// ---------------------------------------------------------------------------

/// Extra lines above/below the viewport that ref/URL detection covers.
pub const DETECT_OVERSCAN_LINES: usize = 200;

/// The first line that is searched.
pub open spec fn detection_start(visible: Option<(usize, usize)>, cursor_line: int) -> int {
    match visible {
        Some((first, _)) => {
            let lo = if first > DETECT_OVERSCAN_LINES {
                first - DETECT_OVERSCAN_LINES
            } else {
                0
            };
            if lo < cursor_line {
                lo
            } else {
                cursor_line
            }
        },
        None => 0,
    }
}

/// The line after the last one that is searched.
pub open spec fn detection_end(visible: Option<(usize, usize)>, cursor_line: int, lines: int) -> int {
    match visible {
        Some((_, last)) => {
            let hi = if last + DETECT_OVERSCAN_LINES > cursor_line + 1 {
                last + DETECT_OVERSCAN_LINES
            } else {
                cursor_line + 1
            };
            if hi < lines {
                hi
            } else {
                lines
            }
        },
        None => lines,
    }
}

/// Line window to run GitHub-ref / URL detection over: the visible range widened by
/// overscan and always including the cursor line. Whole buffer until the first layout
/// exists.
pub fn detection_range(visible: Option<(usize, usize)>, cursor_line: usize, lines: usize) -> (r:
    Range<usize>)
    requires
        cursor_line < usize::MAX,
        visible matches Some((_, last)) ==> last <= usize::MAX - DETECT_OVERSCAN_LINES,
    ensures
        r.start == detection_start(visible, cursor_line as int),
        r.end == detection_end(visible, cursor_line as int, lines as int),
{
    match visible {
        Some((first, last)) => {
            let mut lo: usize = if first > DETECT_OVERSCAN_LINES {
                first - DETECT_OVERSCAN_LINES
            } else {
                0
            };
            if cursor_line < lo {
                lo = cursor_line;
            }
            let mut hi: usize = last + DETECT_OVERSCAN_LINES;
            if hi < cursor_line + 1 {
                hi = cursor_line + 1;
            }
            if hi > lines {
                hi = lines;
            }
            lo..hi
        },
        None => 0..lines,
    }
}

/// The line of the cursor and every visible line are searched.
pub proof fn law_detection_covers_the_view(
    visible: Option<(usize, usize)>,
    cursor_line: int,
    lines: int,
)
    requires
        0 <= cursor_line < lines,
        visible matches Some((_, last)) ==> last <= lines,
    ensures
        detection_start(visible, cursor_line) <= cursor_line,
        cursor_line < detection_end(visible, cursor_line, lines) <= lines,
        visible matches Some((first, last)) ==> detection_start(visible, cursor_line) <= first
            && last <= detection_end(visible, cursor_line, lines),
{
}

// ---------------------------------------------------------------------------
// The cursor position
// ---------------------------------------------------------------------------

/// The grapheme clusters of a text.
pub uninterp spec fn graphemes_of(text: Seq<char>) -> Seq<Seq<char>>;

/// All of `pieces`, one after the other.
pub open spec fn joined(pieces: Seq<Seq<char>>) -> Seq<char>
    decreases pieces.len(),
{
    if pieces.len() == 0 {
        seq![]
    } else {
        joined(pieces.drop_last()) + pieces.last()
    }
}

/// `UnicodeSegmentation::graphemes` with extended clusters: the clusters of a text, in
/// order. They cover the text without gaps, and none is empty. Where they end is not stated
/// here: it is given by the Unicode tables of the crate.
#[verifier::external_body]
fn graphemes(text: &str) -> (r: Vec<String>)
    ensures
        r@.map_values(|s: String| s@) == graphemes_of(text@),
        joined(r@.map_values(|s: String| s@)) == text@,
        forall|i: int| 0 <= i < r@.len() ==> (#[trigger] r@[i])@.len() > 0,
{
    text.graphemes(true).map(|g| g.to_string()).collect()
}

/// Pieces that are not empty are no more than the characters they hold.
proof fn lemma_joined_len(pieces: Seq<Seq<char>>)
    requires
        forall|i: int| 0 <= i < pieces.len() ==> (#[trigger] pieces[i]).len() > 0,
    ensures
        pieces.len() <= joined(pieces).len(),
    decreases pieces.len(),
{
    if pieces.len() > 0 {
        lemma_joined_len(pieces.drop_last());
    }
}

/// A text has no more characters than bytes.
proof fn lemma_chars_within_bytes(text: Seq<char>)
    ensures
        text.len() <= encode_utf8(text).len(),
    decreases text.len(),
{
    if text.len() > 0 {
        lemma_chars_within_bytes(text.drop_first());
        encode_utf8_first_scalar(text);
    }
}

/// Where the line of the byte offset `i` starts.
pub open spec fn line_start(bytes: Seq<u8>, i: int) -> int
    decreases i,
{
    if i <= 0 {
        0
    } else if break_ends_at(bytes, i) {
        i
    } else {
        line_start(bytes, i - 1)
    }
}

proof fn lemma_line_start(bytes: Seq<u8>, s: int, i: int)
    requires
        0 <= i <= bytes.len(),
        starts_line(bytes, line_of(bytes, i), s),
    ensures
        s == line_start(bytes, i),
        s <= i,
    decreases i,
{
    if s > i {
        lemma_line_of_monotone(bytes, i, s - 1);
        assert(line_of(bytes, s) == line_of(bytes, s - 1) + 1);
    }
    if i > 0 && !break_ends_at(bytes, i) {
        if s == i {
            assert(s == 0);
        }
        lemma_line_start(bytes, s, i - 1);
    } else if i > 0 && s < i {
        lemma_line_of_monotone(bytes, s, i - 1);
    }
}

/// A line break ends between two characters.
proof fn lemma_break_boundary(bytes: Seq<u8>, i: int)
    requires
        valid_utf8(bytes),
        break_ends_at(bytes, i),
    ensures
        is_char_boundary(bytes, i),
{
    let b = bytes[i - 1];
    if b < 0x80 {
        lemma_ascii_boundary(bytes, i - 1);
    } else {
        let n: int = if b == 0x85 {
            2
        } else {
            3
        };
        let start = i - n;
        is_char_boundary_iff_not_is_continuation_byte(bytes, start);
        let tail = bytes.subrange(start, bytes.len() as int);
        lemma_boundary_tail(bytes, start, i);
        assert(tail[0] == bytes[start]);
        assert(valid_utf8(tail));
        assert(length_of_first_scalar(tail) == n);
        reveal_with_fuel(is_char_boundary, 2);
        assert(is_char_boundary(tail, n));
    }
}

/// What the status bar says of the cursor and the viewport.
#[derive(Debug, PartialEq)]
pub struct StatusInfo {
    /// The nesting that the cursor is in.
    pub context: Vec<MarkerKind>,
    pub heading_level: Option<u8>,
    pub cursor_line: usize,
    pub cursor_col: usize,
    pub total_lines: usize,
    pub first_visible: usize,
    pub last_visible: usize,
}

/// `level` is that of the nearest heading at or above a line.
pub open spec fn is_heading_at(headings: Seq<HeadingInfo>, line: int, level: Option<u8>) -> bool {
    match level {
        Some(l) => exists|i: int|
            {
                &&& 0 <= i < headings.len()
                &&& (#[trigger] headings[i]).level == l
                &&& headings[i].line <= line
                &&& forall|k: int| i < k < headings.len() ==> (#[trigger] headings[k]).line > line
            },
        None => forall|k: int| 0 <= k < headings.len() ==> (#[trigger] headings[k]).line > line,
    }
}

/// Nearest heading level at or above `line`, if any.
pub fn heading_at(headings: &[HeadingInfo], line: usize) -> (r: Option<u8>)
    requires
        headings_in_order(headings@),
    ensures
        is_heading_at(headings@, line as int, r),
{
    match current_heading_index(headings, line) {
        Some(i) => Some(headings[i].level),
        None => None,
    }
}

/// Gather what the status bar shows from the document and the viewport. The column counts
/// grapheme clusters, not codepoints, so a multi-codepoint character (emoji ZWJ sequence,
/// combining accent) advances the column by one.
pub fn build_status_info(
    rope: &ropey::Rope,
    cursor: usize,
    context: Vec<MarkerKind>,
    headings: &[HeadingInfo],
    visible: (usize, usize),
) -> (r: StatusInfo)
    requires
        cursor <= rope_bytes(*rope).len() < usize::MAX,
        is_char_boundary(rope_bytes(*rope), cursor as int),
        headings_in_order(headings@),
    ensures
        r.context == context,
        is_heading_at(headings@, line_of(rope_bytes(*rope), cursor as int), r.heading_level),
        r.cursor_line == line_of(rope_bytes(*rope), cursor as int) + 1,
        r.cursor_col == graphemes_of(
            chars_of(
                rope_bytes(*rope),
                line_start(rope_bytes(*rope), cursor as int),
                cursor as int,
            ),
        ).len() + 1,
        r.total_lines == line_count(rope_bytes(*rope)),
        r.first_visible == visible.0,
        r.last_visible == (if visible.1 > 0 {
            visible.1 - 1
        } else {
            0
        }),
{
    let ghost bytes = rope_bytes(*rope);
    proof {
        encode_utf8_valid_utf8(rope_text(*rope));
        lemma_line_of_monotone(bytes, cursor as int, bytes.len() as int);
    }
    let line = rope_byte_to_line(rope, cursor);
    let line_start_byte = rope_line_to_byte(rope, line);
    proof {
        lemma_line_start(bytes, line_start_byte as int, cursor as int);
        if line_start_byte > 0 {
            lemma_break_boundary(bytes, line_start_byte as int);
        } else {
            is_char_boundary_start_end_of_seq(bytes);
        }
        assert(is_slice(bytes, line_start_byte as int, cursor as int));
    }
    let before = rope_slice(rope, line_start_byte, cursor);
    let clusters = graphemes(before.as_str());
    proof {
        let views = clusters@.map_values(|s: String| s@);
        lemma_joined_len(views);
        lemma_chars_within_bytes(before@);
        encode_utf8_decode_utf8(before@);
        lemma_line_at_most(bytes, cursor as int);
    }
    StatusInfo {
        context,
        heading_level: heading_at(headings, line),
        cursor_line: line + 1,
        cursor_col: clusters.len() + 1,
        total_lines: rope_line_count(rope),
        first_visible: visible.0,
        last_visible: if visible.1 > 0 {
            visible.1 - 1
        } else {
            0
        },
    }
}

/// There are no more line breaks than bytes.
proof fn lemma_line_at_most(bytes: Seq<u8>, i: int)
    requires
        0 <= i,
    ensures
        0 <= line_of(bytes, i) <= i,
    decreases i,
{
    if i > 0 {
        lemma_line_at_most(bytes, i - 1);
    }
}

// ---------------------------------------------------------------------------
// Marks
// ---------------------------------------------------------------------------

/// Match `i` is tinted: it is visible and not the active one.
pub open spec fn is_tinted(
    matches: Seq<(usize, usize)>,
    active: Option<usize>,
    first: int,
    last: int,
    i: int,
) -> bool {
    &&& !(active is Some && active->0 == i)
    &&& matches[i].1 >= first
    &&& matches[i].0 < last
}

/// The first `k` find matches that are tinted.
pub open spec fn tinted(
    matches: Seq<(usize, usize)>,
    active: Option<usize>,
    first: int,
    last: int,
    k: int,
) -> Seq<int>
    decreases k,
{
    if k <= 0 {
        seq![]
    } else {
        let rest = tinted(matches, active, first, last, k - 1);
        if is_tinted(matches, active, first, last, k - 1) {
            rest.push(k - 1)
        } else {
            rest
        }
    }
}

/// The find matches that get a faint tint: every one, given by its first and last line, that
/// has a visible line, except the active one, which is drawn in a color of its own.
pub fn tinted_matches(
    matches: &[(usize, usize)],
    active: Option<usize>,
    first: usize,
    last: usize,
) -> (r: Vec<usize>)
    ensures
        r@.map_values(|i: usize| i as int) == tinted(
            matches@,
            active,
            first as int,
            last as int,
            matches@.len() as int,
        ),
{
    let mut out: Vec<usize> = Vec::new();
    let mut i: usize = 0;
    assert(out@.map_values(|i: usize| i as int) =~= Seq::<int>::empty());
    while i < matches.len()
        invariant
            i <= matches@.len(),
            out@.map_values(|i: usize| i as int) == tinted(
                matches@,
                active,
                first as int,
                last as int,
                i as int,
            ),
        decreases matches@.len() - i,
    {
        let is_active = match active {
            Some(a) => a == i,
            None => false,
        };
        let (start_line, end_line) = matches[i];
        if !is_active && end_line >= first && start_line < last {
            let ghost before = out@;
            out.push(i);
            assert(out@.map_values(|i: usize| i as int) =~= before.map_values(
                |i: usize| i as int,
            ).push(i as int));
        }
        i += 1;
    }
    out
}

/// A heading or list item that may be folded.
#[derive(Debug, Clone, Copy, PartialEq)]
pub struct FoldAnchor {
    pub line: usize,
    pub byte_offset: usize,
    /// There is something below it to fold.
    pub foldable: bool,
}

/// A line lies in one of the ranges.
pub open spec fn is_hidden(hidden: Seq<Range<usize>>, line: int) -> bool {
    exists|i: int|
        0 <= i < hidden.len() && (#[trigger] hidden[i]).start <= line && line < hidden[i].end
}

/// The anchor shows a chevron: it is foldable, visible and not collapsed in a fold.
pub open spec fn shows_chevron(
    a: FoldAnchor,
    first: int,
    last: int,
    hidden: Seq<Range<usize>>,
) -> bool {
    a.foldable && first <= a.line < last && !is_hidden(hidden, a.line as int)
}

/// The anchors among the first `k` that show a chevron.
pub open spec fn chevrons_upto(
    anchors: Seq<FoldAnchor>,
    first: int,
    last: int,
    hidden: Seq<Range<usize>>,
    k: int,
) -> Seq<FoldAnchor>
    decreases k,
{
    if k <= 0 {
        seq![]
    } else {
        let rest = chevrons_upto(anchors, first, last, hidden, k - 1);
        if shows_chevron(anchors[k - 1], first, last, hidden) {
            rest.push(anchors[k - 1])
        } else {
            rest
        }
    }
}

fn line_hidden(hidden: &[Range<usize>], line: usize) -> (r: bool)
    ensures
        r == is_hidden(hidden@, line as int),
{
    let mut i: usize = 0;
    while i < hidden.len()
        invariant
            i <= hidden@.len(),
            forall|k: int|
                0 <= k < i ==> !((#[trigger] hidden@[k]).start <= line && line < hidden@[k].end),
        decreases hidden@.len() - i,
    {
        if hidden[i].start <= line && line < hidden[i].end {
            assert(hidden@[i as int].start <= line);
            return true;
        }
        i += 1;
    }
    false
}

/// Every visible, non-collapsed, foldable anchor: headings first, then list items. Anchors
/// collapsed inside a folded ancestor are zero-height but still fall inside the visible
/// lines, so they are left out.
pub fn fold_anchors(
    headings: &[FoldAnchor],
    list_items: &[FoldAnchor],
    first: usize,
    last: usize,
    hidden: &[Range<usize>],
) -> (r: Vec<FoldAnchor>)
    ensures
        r@ == chevrons_upto(
            headings@,
            first as int,
            last as int,
            hidden@,
            headings@.len() as int,
        ) + chevrons_upto(
            list_items@,
            first as int,
            last as int,
            hidden@,
            list_items@.len() as int,
        ),
{
    let mut out: Vec<FoldAnchor> = Vec::new();
    add_anchors(&mut out, headings, first, last, hidden);
    add_anchors(&mut out, list_items, first, last, hidden);
    out
}

fn add_anchors(
    out: &mut Vec<FoldAnchor>,
    anchors: &[FoldAnchor],
    first: usize,
    last: usize,
    hidden: &[Range<usize>],
)
    ensures
        final(out)@ == old(out)@ + chevrons_upto(
            anchors@,
            first as int,
            last as int,
            hidden@,
            anchors@.len() as int,
        ),
{
    let ghost before = out@;
    let mut i: usize = 0;
    while i < anchors.len()
        invariant
            i <= anchors@.len(),
            out@ =~= before + chevrons_upto(
                anchors@,
                first as int,
                last as int,
                hidden@,
                i as int,
            ),
        decreases anchors@.len() - i,
    {
        let a = anchors[i];
        if a.foldable && a.line >= first && a.line < last && !line_hidden(hidden, a.line) {
            out.push(a);
        }
        i += 1;
    }
}

/// How a fold chevron is drawn.
#[derive(Debug, Clone, Copy, PartialEq, Eq, Structural)]
pub struct ChevronLook {
    /// ▸ for a folded section, ▾ for an expanded one.
    pub points_right: bool,
    pub color: ThemeColor,
}

/// How the chevron of a section is drawn, if it is: a folded section shows a persistent ▸;
/// an expanded one shows ▾ only while its gutter is hovered.
pub fn chevron_look(folded: bool, hovered: bool) -> (r: Option<ChevronLook>)
    ensures
        r == (if !folded && !hovered {
            None
        } else {
            Some(
                (ChevronLook {
                    points_right: folded,
                    color: if hovered {
                        ThemeColor::Foreground
                    } else {
                        ThemeColor::Comment
                    },
                }),
            )
        }),
{
    if !folded && !hovered {
        return None;
    }
    Some(
        ChevronLook {
            points_right: folded,
            color: if hovered {
                ThemeColor::Foreground
            } else {
                ThemeColor::Comment
            },
        },
    )
}

/// The overlay that is drawn on top of everything.
#[derive(Debug, Clone, Copy, PartialEq, Eq, Structural)]
pub enum Overlay {
    Autocomplete,
    Popover,
    Nothing,
}

/// The overlay that is drawn: the autocomplete dropdown, where it has suggestions, takes
/// priority over the hover popover.
pub fn overlay_shown(suggestions: usize, hovering: bool) -> (r: Overlay)
    ensures
        r == (if suggestions > 0 {
            Overlay::Autocomplete
        } else if hovering {
            Overlay::Popover
        } else {
            Overlay::Nothing
        }),
{
    if suggestions > 0 {
        Overlay::Autocomplete
    } else if hovering {
        Overlay::Popover
    } else {
        Overlay::Nothing
    }
}

// ---------------------------------------------------------------------------
// Laws
// ---------------------------------------------------------------------------

/// Two hundred lines more on either side of the visible ones are searched, as far as there
/// are lines, and those up to the cursor where it is further off; without a layout, all of
/// the lines.
pub proof fn law_detection_window(visible: Option<(usize, usize)>, cursor_line: int, lines: int)
    requires
        0 <= cursor_line < lines,
    ensures
        ({
            let s = detection_start(visible, cursor_line);
            let e = detection_end(visible, cursor_line, lines);
            &&& visible is None ==> s == 0 && e == lines
            &&& visible matches Some((first, last)) ==> {
                &&& first >= 200 && first - 200 <= cursor_line ==> s == first - 200
                &&& first < 200 ==> s == 0
                &&& first >= 200 && cursor_line < first - 200 ==> s == cursor_line
                &&& cursor_line < last + 200 <= lines ==> e == last + 200
                &&& last + 200 > lines ==> e == lines
                &&& last + 200 <= cursor_line ==> e == cursor_line + 1
            }
        }),
{
}

/// The tinted matches are those that have a visible line and are not the active one, in
/// their order.
pub proof fn law_tinted_matches(
    matches: Seq<(usize, usize)>,
    active: Option<usize>,
    first: int,
    last: int,
    k: int,
)
    requires
        0 <= k <= matches.len(),
    ensures
        ({
            let r = tinted(matches, active, first, last, k);
            &&& forall|x: int| #[trigger]
                r.contains(x) <==> 0 <= x < k && first <= matches[x].1 && matches[x].0 < last && (
                active is None || active->0 != x)
            &&& forall|i: int, j: int| 0 <= i < j < r.len() ==> #[trigger] r[i] < #[trigger] r[j]
        }),
    decreases k,
{
    if k > 0 {
        law_tinted_matches(matches, active, first, last, k - 1);
        let rest = tinted(matches, active, first, last, k - 1);
        let r = tinted(matches, active, first, last, k);
        assert forall|i: int| 0 <= i < rest.len() implies 0 <= #[trigger] rest[i] < k - 1 by {
            assert(rest.contains(rest[i]));
        }
        assert forall|x: int| #[trigger] r.contains(x) <==> 0 <= x < k && first <= matches[x].1
            && matches[x].0 < last && (active is None || active->0 != x) by {
            if rest.contains(x) {
                let i = choose|i: int| 0 <= i < rest.len() && rest[i] == x;
                assert(r[i] == x);
            }
            if is_tinted(matches, active, first, last, k - 1) {
                assert(r[rest.len() as int] == k - 1);
            }
            if r.contains(x) {
                let i = choose|i: int| 0 <= i < r.len() && r[i] == x;
                if i < rest.len() {
                    assert(rest[i] == x);
                }
            }
        }
    }
}

/// The chevrons that show are those of the foldable anchors on visible lines that no fold
/// hides, in their order.
pub proof fn law_chevrons(
    anchors: Seq<FoldAnchor>,
    first: int,
    last: int,
    hidden: Seq<Range<usize>>,
    k: int,
)
    requires
        0 <= k <= anchors.len(),
    ensures
        chevrons_upto(anchors, first, last, hidden, k) == anchors.subrange(0, k).filter(
            |a: FoldAnchor|
                a.foldable && first <= a.line && a.line < last && !(exists|i: int|
                    0 <= i < hidden.len() && (#[trigger] hidden[i]).start <= a.line && a.line
                        < hidden[i].end),
        ),
    decreases k,
{
    let p = |a: FoldAnchor|
        a.foldable && first <= a.line && a.line < last && !(exists|i: int|
            0 <= i < hidden.len() && (#[trigger] hidden[i]).start <= a.line && a.line
                < hidden[i].end);
    reveal(Seq::filter);
    if k > 0 {
        law_chevrons(anchors, first, last, hidden, k - 1);
        let s = anchors.subrange(0, k);
        assert(s.drop_last() =~= anchors.subrange(0, k - 1));
        assert(s.last() == anchors[k - 1]);
    }
}

/// A line starts right behind a line feed, and holds no other one before the offset.
pub proof fn law_line_starts(bytes: Seq<u8>, i: int)
    requires
        0 <= i <= bytes.len(),
    ensures
        0 <= line_start(bytes, i) <= i,
        forall|k: int| line_start(bytes, i) <= k < i ==> #[trigger] bytes[k] != 10,
        i > 0 && bytes[i - 1] == 10 ==> line_start(bytes, i) == i,
        i > 0 && 32 <= bytes[i - 1] <= 126 ==> line_start(bytes, i) == line_start(bytes, i - 1),
        line_start(bytes, 0) == 0,
    decreases i,
{
    if i > 0 && !break_ends_at(bytes, i) {
        law_line_starts(bytes, i - 1);
    }
}

} // verus!
