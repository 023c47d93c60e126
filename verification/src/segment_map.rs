//! The map between buffer bytes and display bytes of one line.
//!
//! Layout works on the *display* string (markdown markers hidden, some regions
//! shown as shorter tokens) while editing speaks *buffer* bytes. Verbatim segments
//! keep byte offsets up to a constant shift, so multibyte text maps exactly; only
//! replaced tokens are not one to one, and those are treated as atoms.
use crate::text::{byte_len, is_slice, lemma_encode_concat, slice};
use std::ops::Range;
use vstd::prelude::*;
use vstd::string::*;
use vstd::utf8::*;

verus! {

/// A buffer subrange that is transformed on the way to the display string.
#[derive(Debug, Clone, PartialEq)]
pub enum Special {
    /// Buffer bytes that don't appear in the display at all (e.g. `**` markers,
    /// a hidden `# ` heading prefix).
    Hidden(Range<usize>),
    /// Buffer bytes shown as a different, usually shorter token (e.g. a naked URL
    /// rendered as `owner/repo#123`).
    Collapsed { buffer: Range<usize>, display: String },
}

/// What a [`Special`] says: the buffer range and the bytes shown in its place, if
/// it shows any.
pub struct SpecialView {
    pub start: int,
    pub end: int,
    pub shown: Option<Seq<u8>>,
}

impl View for Special {
    type V = SpecialView;

    open spec fn view(&self) -> SpecialView {
        match self {
            Special::Hidden(r) => SpecialView {
                start: r.start as int,
                end: r.end as int,
                shown: None,
            },
            Special::Collapsed { buffer, display } => SpecialView {
                start: buffer.start as int,
                end: buffer.end as int,
                shown: Some(encode_utf8(display@)),
            },
        }
    }
}

impl Special {
    /// Where the transformed buffer range starts.
    pub fn start(&self) -> (r: usize)
        ensures
            r == self@.start,
    {
        match self {
            Special::Hidden(r) => r.start,
            Special::Collapsed { buffer, .. } => buffer.start,
        }
    }

    /// Where the transformed buffer range ends.
    pub fn end(&self) -> (r: usize)
        ensures
            r == self@.end,
    {
        match self {
            Special::Hidden(r) => r.end,
            Special::Collapsed { buffer, .. } => buffer.end,
        }
    }
}

/// One contiguous run of the display string and the buffer range it came from.
#[derive(Debug, PartialEq)]
struct Segment {
    buffer: Range<usize>,
    display: Range<usize>,
    verbatim: bool,
}

impl Clone for Segment {
    fn clone(&self) -> (r: Self)
        ensures
            r == *self,
    {
        Segment {
            buffer: self.buffer.start..self.buffer.end,
            display: self.display.start..self.display.end,
            verbatim: self.verbatim,
        }
    }
}

/// What a segment says. `verbatim` means that the display bytes are the buffer
/// bytes, so that positions map one to one.
pub struct SegmentView {
    pub buffer_start: int,
    pub buffer_end: int,
    pub display_start: int,
    pub display_end: int,
    pub verbatim: bool,
}

impl View for Segment {
    type V = SegmentView;

    closed spec fn view(&self) -> SegmentView {
        SegmentView {
            buffer_start: self.buffer.start as int,
            buffer_end: self.buffer.end as int,
            display_start: self.display.start as int,
            display_end: self.display.end as int,
            verbatim: self.verbatim,
        }
    }
}

/// Maps between buffer byte offsets and display byte offsets for one line.
#[derive(Debug)]
pub struct SegmentMap {
    segments: Vec<Segment>,
    display_len: usize,
    buffer_start: usize,
    buffer_end: usize,
}

impl Clone for SegmentMap {
    fn clone(&self) -> (r: Self)
        ensures
            r@ == self@,
    {
        proof {
            use_type_invariant(self);
        }
        let segments = self.segments.clone();
        assert(segments@.map_values(|s: Segment| s@) =~= self.segments@.map_values(
            |s: Segment| s@,
        ));
        SegmentMap {
            segments,
            display_len: self.display_len,
            buffer_start: self.buffer_start,
            buffer_end: self.buffer_end,
        }
    }
}

/// The contents of a [`SegmentMap`].
pub struct SegmentMapView {
    pub segments: Seq<SegmentView>,
    pub display_len: int,
    pub buffer_start: int,
    pub buffer_end: int,
}

impl View for SegmentMap {
    type V = SegmentMapView;

    closed spec fn view(&self) -> SegmentMapView {
        SegmentMapView {
            segments: self.segments@.map_values(|s: Segment| s@),
            display_len: self.display_len as int,
            buffer_start: self.buffer_start as int,
            buffer_end: self.buffer_end as int,
        }
    }
}

// ---------------------------------------------------------------------------
// What a map is
// ---------------------------------------------------------------------------

/// The segments are in order, their display ranges tile `0..display_len`, their
/// buffer ranges lie in `buffer_start..buffer_end` without overlap, and a verbatim
/// segment is as long on both sides.
pub open spec fn segments_wf(segs: Seq<SegmentView>, start: int, end: int, len: int) -> bool {
    &&& 0 <= start <= end
    &&& 0 <= len
    &&& forall|i: int|
        0 <= i < segs.len() ==> {
            let s = #[trigger] segs[i];
            &&& start <= s.buffer_start < s.buffer_end <= end
            &&& 0 <= s.display_start <= s.display_end <= len
            &&& s.verbatim ==> s.display_end - s.display_start == s.buffer_end - s.buffer_start
        }
    &&& forall|i: int, j: int|
        0 <= i < j < segs.len() ==> (#[trigger] segs[i]).buffer_end <= (
        #[trigger] segs[j]).buffer_start && segs[i].display_end <= segs[j].display_start
    &&& forall|i: int|
        0 < i < segs.len() ==> segs[i - 1].display_end == (#[trigger] segs[i]).display_start
    &&& segs.len() > 0 ==> segs[0].display_start == 0 && segs.last().display_end == len
    &&& segs.len() == 0 ==> len == 0
}

impl SegmentMapView {
    /// The map is well formed.
    pub open spec fn wf(self) -> bool {
        segments_wf(self.segments, self.buffer_start, self.buffer_end, self.display_len)
    }

    /// The display offset of a buffer offset: the offset is clamped into the line;
    /// inside a verbatim segment it keeps its distance from the segment's start,
    /// inside a replaced token it is the token's start, and inside hidden bytes it
    /// is where the next segment starts.
    pub open spec fn to_display(self, off: int) -> int {
        if off <= self.buffer_start {
            0
        } else if off >= self.buffer_end {
            self.display_len
        } else {
            let i = first_ending_after(self.segments, off, true, 0);
            if i == self.segments.len() {
                self.display_len
            } else {
                let s = self.segments[i];
                if s.verbatim && s.buffer_start <= off {
                    s.display_start + (off - s.buffer_start)
                } else {
                    s.display_start
                }
            }
        }
    }

    /// The buffer offset of a display offset: the first display offset is the start
    /// of the line and the last one its end; inside a verbatim segment the offset
    /// keeps its distance from the segment's start, inside a replaced token it is
    /// the token's start.
    pub open spec fn to_buffer(self, off: int) -> int {
        if off <= 0 {
            self.buffer_start
        } else if off >= self.display_len {
            self.buffer_end
        } else {
            let i = first_ending_after(self.segments, off, false, 0);
            if i == self.segments.len() {
                self.buffer_end
            } else {
                let s = self.segments[i];
                if s.verbatim {
                    s.buffer_start + (off - s.display_start)
                } else {
                    s.buffer_start
                }
            }
        }
    }
}

/// The first segment at or after `from` whose range (in the buffer or in the
/// display) ends after `off`; the number of segments where none does.
pub open spec fn first_ending_after(
    segs: Seq<SegmentView>,
    off: int,
    in_buffer: bool,
    from: int,
) -> int
    decreases segs.len() - from,
{
    if from < 0 || from >= segs.len() {
        segs.len() as int
    } else if off < (if in_buffer {
        segs[from].buffer_end
    } else {
        segs[from].display_end
    }) {
        from
    } else {
        first_ending_after(segs, off, in_buffer, from + 1)
    }
}

proof fn lemma_first_ending_after(segs: Seq<SegmentView>, off: int, in_buffer: bool, from: int)
    requires
        0 <= from <= segs.len(),
    ensures
        ({
            let r = first_ending_after(segs, off, in_buffer, from);
            &&& from <= r <= segs.len()
            &&& r < segs.len() ==> off < (if in_buffer {
                segs[r].buffer_end
            } else {
                segs[r].display_end
            })
            &&& forall|i: int|
                from <= i < r ==> off >= (if in_buffer {
                    (#[trigger] segs[i]).buffer_end
                } else {
                    segs[i].display_end
                })
        }),
    decreases segs.len() - from,
{
    if from < segs.len() {
        lemma_first_ending_after(segs, off, in_buffer, from + 1);
    }
}

// ---------------------------------------------------------------------------
// Building
// ---------------------------------------------------------------------------

/// The specials that lie in the line `start..end` and are not empty.
pub open spec fn in_line(sp: SpecialView, start: int, end: int) -> bool {
    sp.start >= start && sp.end <= end && sp.start < sp.end
}

/// `sorted` with `x` put behind everything that starts no later than it.
pub open spec fn insert_by_start(sorted: Seq<SpecialView>, x: SpecialView) -> Seq<SpecialView>
    decreases sorted.len(),
{
    if sorted.len() == 0 || sorted.last().start <= x.start {
        sorted.push(x)
    } else {
        insert_by_start(sorted.drop_last(), x).push(sorted.last())
    }
}

/// The specials of a line in the order in which they start; those that start
/// together keep their order.
pub open spec fn line_specials(sp: Seq<SpecialView>, start: int, end: int) -> Seq<SpecialView>
    decreases sp.len(),
{
    if sp.len() == 0 {
        seq![]
    } else {
        let rest = line_specials(sp.drop_last(), start, end);
        if in_line(sp.last(), start, end) {
            insert_by_start(rest, sp.last())
        } else {
            rest
        }
    }
}

/// A display string under construction: the buffer up to `pos` is done.
pub struct Built {
    pub pos: int,
    pub display: Seq<u8>,
    pub segments: Seq<SegmentView>,
}

/// `b` after the buffer up to `to` was copied.
pub open spec fn copied(b: Built, line: Seq<u8>, line_start: int, to: int) -> Built {
    if to <= b.pos {
        b
    } else {
        let piece = line.subrange(b.pos - line_start, to - line_start);
        Built {
            pos: to,
            display: b.display + piece,
            segments: b.segments.push(
                SegmentView {
                    buffer_start: b.pos,
                    buffer_end: to,
                    display_start: b.display.len() as int,
                    display_end: (b.display.len() + piece.len()) as int,
                    verbatim: true,
                },
            ),
        }
    }
}

/// `b` after one special: the text before it is copied and the special is replaced
/// by what it shows. A special that starts before what is done is passed over.
pub open spec fn replaced(b: Built, line: Seq<u8>, line_start: int, sp: SpecialView) -> Built {
    if sp.start < b.pos {
        b
    } else {
        let c = copied(b, line, line_start, sp.start);
        match sp.shown {
            None => Built { pos: sp.end, ..c },
            Some(token) => Built {
                pos: sp.end,
                display: c.display + token,
                segments: c.segments.push(
                    SegmentView {
                        buffer_start: sp.start,
                        buffer_end: sp.end,
                        display_start: c.display.len() as int,
                        display_end: (c.display.len() + token.len()) as int,
                        verbatim: false,
                    },
                ),
            },
        }
    }
}

/// The display string after the first `k` specials.
pub open spec fn built_upto(
    line: Seq<u8>,
    line_start: int,
    sp: Seq<SpecialView>,
    k: int,
) -> Built
    decreases k,
{
    if k <= 0 {
        Built { pos: line_start, display: seq![], segments: seq![] }
    } else {
        replaced(built_upto(line, line_start, sp, k - 1), line, line_start, sp[k - 1])
    }
}

/// The whole display string and its segments.
pub open spec fn built(line: Seq<u8>, line_start: int, specials: Seq<SpecialView>) -> Built {
    let sp = line_specials(specials, line_start, line_start + line.len());
    copied(
        built_upto(line, line_start, sp, sp.len() as int),
        line,
        line_start,
        line_start + line.len(),
    )
}

/// The map that `built` gives.
pub open spec fn built_map(
    line: Seq<u8>,
    line_start: int,
    specials: Seq<SpecialView>,
) -> SegmentMapView {
    let b = built(line, line_start, specials);
    SegmentMapView {
        segments: b.segments,
        display_len: b.display.len() as int,
        buffer_start: line_start,
        buffer_end: line_start + line.len(),
    }
}

/// Wherever text of the line is copied, it is cut between characters.
pub open spec fn cuts_at_chars(line: Seq<u8>, line_start: int, specials: Seq<SpecialView>) -> bool {
    let sp = line_specials(specials, line_start, line_start + line.len());
    let n = sp.len() as int;
    &&& forall|k: int|
        0 <= k < n ==> {
            let pos = (#[trigger] built_upto(line, line_start, sp, k)).pos;
            pos < sp[k].start ==> is_slice(line, pos - line_start, sp[k].start - line_start)
        }
    &&& {
        let pos = built_upto(line, line_start, sp, n).pos;
        pos < line_start + line.len() ==> is_slice(line, pos - line_start, line.len() as int)
    }
}

proof fn lemma_insert_by_start(sorted: Seq<SpecialView>, x: SpecialView, start: int, end: int)
    requires
        forall|i: int| 0 <= i < sorted.len() ==> in_line(#[trigger] sorted[i], start, end),
        in_line(x, start, end),
    ensures
        insert_by_start(sorted, x).len() == sorted.len() + 1,
        forall|i: int|
            0 <= i < sorted.len() + 1 ==> in_line(
                #[trigger] insert_by_start(sorted, x)[i],
                start,
                end,
            ),
    decreases sorted.len(),
{
    if sorted.len() == 0 || sorted.last().start <= x.start {
    } else {
        lemma_insert_by_start(sorted.drop_last(), x, start, end);
    }
}

proof fn lemma_line_specials(sp: Seq<SpecialView>, start: int, end: int)
    ensures
        forall|i: int|
            0 <= i < line_specials(sp, start, end).len() ==> in_line(
                #[trigger] line_specials(sp, start, end)[i],
                start,
                end,
            ),
    decreases sp.len(),
{
    if sp.len() > 0 {
        lemma_line_specials(sp.drop_last(), start, end);
        if in_line(sp.last(), start, end) {
            lemma_insert_by_start(line_specials(sp.drop_last(), start, end), sp.last(), start, end);
        }
    }
}

/// A display string under construction is well formed.
pub open spec fn built_wf(b: Built, line_start: int, line_end: int) -> bool {
    &&& line_start <= b.pos <= line_end
    &&& segments_wf(b.segments, line_start, line_end, b.display.len() as int)
    &&& forall|i: int| 0 <= i < b.segments.len() ==> (#[trigger] b.segments[i]).buffer_end <= b.pos
}

proof fn lemma_copied_wf(b: Built, line: Seq<u8>, line_start: int, to: int)
    requires
        built_wf(b, line_start, line_start + line.len()),
        to <= line_start + line.len(),
    ensures
        built_wf(copied(b, line, line_start, to), line_start, line_start + line.len()),
        copied(b, line, line_start, to).pos == (if to <= b.pos {
            b.pos
        } else {
            to
        }),
{
    if to > b.pos {
        let c = copied(b, line, line_start, to);
        let n = b.segments.len() as int;
        assert(c.segments[n].buffer_start == b.pos);
        assert forall|i: int| 0 <= i < n implies c.segments[i] == b.segments[i] by {}
        assert(c.display.len() == b.display.len() + (to - b.pos));
    }
}

proof fn lemma_replaced_wf(b: Built, line: Seq<u8>, line_start: int, sp: SpecialView)
    requires
        built_wf(b, line_start, line_start + line.len()),
        in_line(sp, line_start, line_start + line.len()),
    ensures
        built_wf(replaced(b, line, line_start, sp), line_start, line_start + line.len()),
{
    if sp.start >= b.pos {
        lemma_copied_wf(b, line, line_start, sp.start);
        let c = copied(b, line, line_start, sp.start);
        let d = replaced(b, line, line_start, sp);
        if sp.shown is Some {
            let n = c.segments.len() as int;
            assert(d.segments[n].buffer_start == sp.start);
            assert forall|i: int| 0 <= i < n implies d.segments[i] == c.segments[i] by {}
        }
    }
}

proof fn lemma_built_upto_wf(line: Seq<u8>, line_start: int, sp: Seq<SpecialView>, k: int)
    requires
        0 <= line_start,
        0 <= k <= sp.len(),
        forall|i: int|
            0 <= i < sp.len() ==> in_line(#[trigger] sp[i], line_start, line_start + line.len()),
    ensures
        built_wf(built_upto(line, line_start, sp, k), line_start, line_start + line.len()),
    decreases k,
{
    if k > 0 {
        lemma_built_upto_wf(line, line_start, sp, k - 1);
        lemma_replaced_wf(
            built_upto(line, line_start, sp, k - 1),
            line,
            line_start,
            sp[k - 1],
        );
    }
}

/// Whatever the specials are, the map that is built is well formed.
pub proof fn lemma_built_map_wf(line: Seq<u8>, line_start: int, specials: Seq<SpecialView>)
    requires
        0 <= line_start,
    ensures
        built_map(line, line_start, specials).wf(),
{
    let end = line_start + line.len();
    let sp = line_specials(specials, line_start, end);
    lemma_line_specials(specials, line_start, end);
    lemma_built_upto_wf(line, line_start, sp, sp.len() as int);
    lemma_copied_wf(built_upto(line, line_start, sp, sp.len() as int), line, line_start, end);
}

/// The views of the specials that `order` picks.
spec fn picked(specials: Seq<Special>, order: Seq<usize>) -> Seq<SpecialView> {
    order.map_values(|i: usize| specials[i as int]@)
}

/// The indices of the specials of the line `start..end`, in the order in which they
/// start.
fn sorted_specials(specials: &[Special], start: usize, end: usize) -> (order: Vec<usize>)
    ensures
        forall|i: int| 0 <= i < order@.len() ==> (#[trigger] order@[i]) < specials@.len(),
        picked(specials@, order@) == line_specials(
            specials@.map_values(|s: Special| s@),
            start as int,
            end as int,
        ),
{
    let ghost views = specials@.map_values(|s: Special| s@);
    let mut order: Vec<usize> = Vec::new();
    let mut i: usize = 0;
    assert(picked(specials@, order@) =~= line_specials(
        views.subrange(0, 0),
        start as int,
        end as int,
    ));
    while i < specials.len()
        invariant
            views == specials@.map_values(|s: Special| s@),
            i <= specials@.len(),
            forall|j: int| 0 <= j < order@.len() ==> (#[trigger] order@[j]) < specials@.len(),
            picked(specials@, order@) == line_specials(
                views.subrange(0, i as int),
                start as int,
                end as int,
            ),
        decreases specials@.len() - i,
    {
        let s = &specials[i];
        assert(views.subrange(0, i + 1).drop_last() =~= views.subrange(0, i as int));
        assert(views.subrange(0, i + 1).last() == s@);
        if s.start() >= start && s.end() <= end && s.start() < s.end() {
            let ghost before = order@;
            let mut at = order.len();
            assert(before.subrange(0, at as int) =~= before);
            assert(before.subrange(at as int, before.len() as int) =~= Seq::<usize>::empty());
            while at > 0 && specials[order[at - 1]].start() > s.start()
                invariant
                    i < specials@.len(),
                    *s == specials@[i as int],
                    at <= order@.len(),
                    order@ == before,
                    forall|j: int|
                        0 <= j < order@.len() ==> (#[trigger] order@[j]) < specials@.len(),
                    insert_by_start(picked(specials@, before), s@) == insert_by_start(
                        picked(specials@, before.subrange(0, at as int)),
                        s@,
                    ) + picked(specials@, before.subrange(at as int, before.len() as int)),
                decreases at,
            {
                proof {
                    let head = picked(specials@, before.subrange(0, at as int));
                    assert(head.last() == specials@[before[at - 1] as int]@);
                    assert(head.drop_last() =~= picked(
                        specials@,
                        before.subrange(0, at - 1),
                    ));
                    let tail = picked(specials@, before.subrange(at as int, before.len() as int));
                    let longer = picked(specials@, before.subrange(at - 1, before.len() as int));
                    assert(longer =~= seq![head.last()] + tail);
                    assert(insert_by_start(head, s@) == insert_by_start(head.drop_last(), s@).push(
                        head.last(),
                    ));
                    assert(insert_by_start(head, s@) + tail =~= insert_by_start(
                        head.drop_last(),
                        s@,
                    ) + longer);
                }
                at -= 1;
            }
            order.insert(at, i);
            proof {
                let head = picked(specials@, before.subrange(0, at as int));
                let tail = picked(specials@, before.subrange(at as int, before.len() as int));
                if at > 0 {
                    assert(head.last() == specials@[before[at - 1] as int]@);
                }
                assert(insert_by_start(head, s@) == head.push(s@));
                assert(picked(specials@, order@) =~= head.push(s@) + tail);
            }
        }
        i += 1;
    }
    assert(views.subrange(0, i as int) =~= views);
    order
}

/// Appends the line's text from `from` to `to` to the display, with its segment.
fn push_verbatim(
    line_text: &str,
    line_start: usize,
    segments: &mut Vec<Segment>,
    display: &mut String,
    from: usize,
    to: usize,
)
    requires
        line_start <= from,
        line_start + line_text.spec_bytes().len() <= usize::MAX,
        to <= line_start + line_text.spec_bytes().len(),
        from < to ==> is_slice(
            line_text.spec_bytes(),
            from - line_start,
            to - line_start,
        ),
    ensures
        ({
            let b = Built {
                pos: from as int,
                display: encode_utf8(old(display)@),
                segments: old(segments)@.map_values(|s: Segment| s@),
            };
            let c = copied(b, line_text.spec_bytes(), line_start as int, to as int);
            &&& encode_utf8(final(display)@) == c.display
            &&& final(segments)@.map_values(|s: Segment| s@) == c.segments
        }),
{
    if to <= from {
        return;
    }
    let piece = slice(line_text, from - line_start, to - line_start);
    let d0 = byte_len(display.as_str());
    proof {
        lemma_encode_concat(display@, piece@);
    }
    display.append(piece);
    let d1 = byte_len(display.as_str());
    let seg = Segment { buffer: from..to, display: d0..d1, verbatim: true };
    let ghost before = segments@;
    segments.push(seg);
    assert(segments@.map_values(|s: Segment| s@) =~= before.map_values(|s: Segment| s@).push(seg@));
}

impl SegmentMap {
    #[verifier::type_invariant]
    spec fn inv(self) -> bool {
        self@.wf()
    }

    /// Build the display string and map for a line. `line_text` is the raw line
    /// (no trailing newline) starting at buffer offset `line_start`. Specials
    /// outside the line are ignored, and so is one that overlaps an earlier one;
    /// they need not be sorted.
    pub fn build(line_text: &str, line_start: usize, specials: &[Special]) -> (r: (
        String,
        SegmentMap,
    ))
        requires
            line_start + line_text.spec_bytes().len() <= usize::MAX,
            cuts_at_chars(
                line_text.spec_bytes(),
                line_start as int,
                specials@.map_values(|s: Special| s@),
            ),
        ensures
            encode_utf8(r.0@) == built(
                line_text.spec_bytes(),
                line_start as int,
                specials@.map_values(|s: Special| s@),
            ).display,
            r.1@ == built_map(
                line_text.spec_bytes(),
                line_start as int,
                specials@.map_values(|s: Special| s@),
            ),
            r.1@.wf(),
            r.1@.display_len == encode_utf8(r.0@).len(),
            apart(
                specials@.map_values(|s: Special| s@),
                line_start as int,
                line_start + line_text.spec_bytes().len(),
            ) ==> encode_utf8(r.0@) == shown_line(
                line_text.spec_bytes(),
                line_start as int,
                specials@.map_values(|s: Special| s@),
            ),
    {
        let ghost line = line_text.spec_bytes();
        let ghost views = specials@.map_values(|s: Special| s@);
        let buffer_end = line_start + byte_len(line_text);
        let order = sorted_specials(specials, line_start, buffer_end);
        let ghost sp = line_specials(views, line_start as int, buffer_end as int);
        proof {
            lemma_line_specials(views, line_start as int, buffer_end as int);
        }
        let mut display = String::new();
        let mut segments: Vec<Segment> = Vec::new();
        let mut pos: usize = line_start;
        let mut k: usize = 0;
        assert(encode_utf8(display@) =~= Seq::<u8>::empty());
        assert(segments@.map_values(|s: Segment| s@) =~= Seq::<SegmentView>::empty());
        while k < order.len()
            invariant
                line == line_text.spec_bytes(),
                views == specials@.map_values(|s: Special| s@),
                buffer_end == line_start + line.len(),
                sp == line_specials(views, line_start as int, buffer_end as int),
                forall|i: int| 0 <= i < order@.len() ==> (#[trigger] order@[i]) < specials@.len(),
                picked(specials@, order@) == sp,
                forall|i: int|
                    0 <= i < sp.len() ==> in_line(
                        #[trigger] sp[i],
                        line_start as int,
                        buffer_end as int,
                    ),
                cuts_at_chars(line, line_start as int, views),
                k <= order@.len(),
                pos == built_upto(line, line_start as int, sp, k as int).pos,
                encode_utf8(display@) == built_upto(line, line_start as int, sp, k as int).display,
                segments@.map_values(|s: Segment| s@) == built_upto(
                    line,
                    line_start as int,
                    sp,
                    k as int,
                ).segments,
            decreases order@.len() - k,
        {
            let special = &specials[order[k]];
            assert(sp[k as int] == special@);
            let ghost b = built_upto(line, line_start as int, sp, k as int);
            proof {
                lemma_built_upto_wf(line, line_start as int, sp, k as int);
            }
            let s = special.start();
            let e = special.end();
            k += 1;
            if s < pos {
                continue;
            }
            push_verbatim(line_text, line_start, &mut segments, &mut display, pos, s);
            match special {
                Special::Hidden(_) => {},
                Special::Collapsed { display: token, .. } => {
                    let d0 = byte_len(display.as_str());
                    proof {
                        lemma_encode_concat(display@, token@);
                    }
                    display.append(token.as_str());
                    let d1 = byte_len(display.as_str());
                    let seg = Segment { buffer: s..e, display: d0..d1, verbatim: false };
                    let ghost before = segments@;
                    segments.push(seg);
                    assert(segments@.map_values(|s: Segment| s@) =~= before.map_values(
                        |s: Segment| s@,
                    ).push(seg@));
                },
            }
            pos = e;
        }
        proof {
            lemma_built_upto_wf(line, line_start as int, sp, k as int);
            lemma_built_map_wf(line, line_start as int, views);
            if apart(views, line_start as int, buffer_end as int) {
                law_display_is_the_shown_line(line, line_start as int, views);
            }
        }
        push_verbatim(line_text, line_start, &mut segments, &mut display, pos, buffer_end);
        let display_len = byte_len(display.as_str());
        let map = SegmentMap { segments, display_len, buffer_start: line_start, buffer_end };
        (display, map)
    }

    /// Identity map for a line with no hidden/collapsed regions.
    pub fn identity(line_text: &str, line_start: usize) -> (r: (String, SegmentMap))
        requires
            line_start + line_text.spec_bytes().len() <= usize::MAX,
        ensures
            r.0@ == line_text@,
            r.1@ == built_map(line_text.spec_bytes(), line_start as int, seq![]),
            r.1@.wf(),
    {
        proof {
            lemma_identity_built(line_text.spec_bytes(), line_start as int);
            encode_utf8_valid_utf8(line_text@);
            is_char_boundary_start_end_of_seq(line_text.spec_bytes());
        }
        let none: [Special; 0] = [];
        assert(none@.map_values(|s: Special| s@) =~= Seq::<SpecialView>::empty());
        let r = Self::build(line_text, line_start, &none);
        proof {
            crate::text::lemma_encode_injective(r.0@, line_text@);
        }
        r
    }

    /// The length of the display string in bytes.
    pub fn display_len(&self) -> (r: usize)
        ensures
            r == self@.display_len,
    {
        self.display_len
    }

    /// Map a buffer byte offset to a display byte offset. Offsets inside a hidden
    /// region collapse to that region's display boundary; offsets inside a
    /// collapsed token clamp to its display start (the region is atomic).
    pub fn buffer_to_display(&self, buffer_off: usize) -> (r: usize)
        ensures
            r == self@.to_display(buffer_off as int),
            r <= self@.display_len,
    {
        proof {
            use_type_invariant(self);
            lemma_first_ending_after(self@.segments, buffer_off as int, true, 0);
        }
        if buffer_off <= self.buffer_start {
            return 0;
        }
        if buffer_off >= self.buffer_end {
            return self.display_len;
        }
        let mut i: usize = 0;
        while i < self.segments.len()
            invariant
                self@.wf(),
                i <= self.segments@.len(),
                self.buffer_start < buffer_off < self.buffer_end,
                first_ending_after(self@.segments, buffer_off as int, true, 0)
                    == first_ending_after(self@.segments, buffer_off as int, true, i as int),
            decreases self.segments@.len() - i,
        {
            let seg = &self.segments[i];
            assert(self@.segments[i as int] == seg@);
            if buffer_off < seg.buffer.start {
                return seg.display.start;
            }
            if buffer_off < seg.buffer.end {
                return if seg.verbatim {
                    seg.display.start + (buffer_off - seg.buffer.start)
                } else {
                    seg.display.start
                };
            }
            i += 1;
        }
        self.display_len
    }

    /// Map a display byte offset back to a buffer byte offset. Offsets inside a
    /// collapsed token clamp to its buffer start.
    pub fn display_to_buffer(&self, display_off: usize) -> (r: usize)
        ensures
            r == self@.to_buffer(display_off as int),
            self@.buffer_start <= r <= self@.buffer_end,
    {
        proof {
            use_type_invariant(self);
        }
        if display_off == 0 {
            return self.buffer_start;
        }
        if display_off >= self.display_len {
            return self.buffer_end;
        }
        let mut i: usize = 0;
        while i < self.segments.len()
            invariant
                self@.wf(),
                i <= self.segments@.len(),
                0 < display_off < self.display_len,
                i == 0 || self@.segments[i - 1].display_end <= display_off,
                first_ending_after(self@.segments, display_off as int, false, 0)
                    == first_ending_after(self@.segments, display_off as int, false, i as int),
            decreases self.segments@.len() - i,
        {
            let seg = &self.segments[i];
            assert(self@.segments[i as int] == seg@);
            if display_off < seg.display.end {
                return if seg.verbatim {
                    seg.buffer.start + (display_off - seg.display.start)
                } else {
                    seg.buffer.start
                };
            }
            i += 1;
        }
        self.buffer_end
    }

    /// Map a buffer range to a display range (clamped, possibly empty).
    pub fn buffer_range_to_display(&self, range: Range<usize>) -> (r: Range<usize>)
        ensures
            r.start == min2(
                self@.to_display(range.start as int),
                self@.to_display(range.end as int),
            ),
            r.end == max2(
                self@.to_display(range.start as int),
                self@.to_display(range.end as int),
            ),
            r.start <= r.end <= self@.display_len,
    {
        let s = self.buffer_to_display(range.start);
        let e = self.buffer_to_display(range.end);
        if s <= e {
            s..e
        } else {
            e..s
        }
    }
}

/// The smaller of two numbers.
pub open spec fn min2(a: int, b: int) -> int {
    if a <= b {
        a
    } else {
        b
    }
}

/// The larger of two numbers.
pub open spec fn max2(a: int, b: int) -> int {
    if a <= b {
        b
    } else {
        a
    }
}

proof fn lemma_identity_built(line: Seq<u8>, line_start: int)
    ensures
        built(line, line_start, seq![]).display == line,
        line.len() > 0 ==> built(line, line_start, seq![]).segments == seq![
            SegmentView {
                buffer_start: line_start,
                buffer_end: line_start + line.len(),
                display_start: 0,
                display_end: line.len() as int,
                verbatim: true,
            },
        ],
        line.len() == 0 ==> built(line, line_start, seq![]).segments == Seq::<
            SegmentView,
        >::empty(),
{
    let sp = line_specials(seq![], line_start, line_start + line.len());
    assert(sp =~= Seq::<SpecialView>::empty());
    let b = built_upto(line, line_start, sp, 0);
    let c = copied(b, line, line_start, line_start + line.len());
    assert(c == built(line, line_start, seq![]));
    if line.len() > 0 {
        assert(line.subrange(0, line.len() as int) =~= line);
        assert(c.display =~= line);
        assert(c.segments =~= seq![
            SegmentView {
                buffer_start: line_start,
                buffer_end: line_start + line.len(),
                display_start: 0,
                display_end: line.len() as int,
                verbatim: true,
            },
        ]);
    } else {
        assert(c.display =~= line);
    }
}

// ---------------------------------------------------------------------------
// Laws
// ---------------------------------------------------------------------------

/// A line without specials is shown as it is, and its offsets map one to one.
pub proof fn law_identity_round_trips(line: Seq<u8>, line_start: int, i: int)
    requires
        0 <= line_start,
        0 <= i <= line.len(),
    ensures
        built(line, line_start, seq![]).display == line,
        built_map(line, line_start, seq![]).to_display(line_start + i) == i,
        built_map(line, line_start, seq![]).to_buffer(i) == line_start + i,
{
    lemma_identity_built(line, line_start);
    let m = built_map(line, line_start, seq![]);
    reveal_with_fuel(first_ending_after, 3);
}

/// A later buffer offset is never shown before an earlier one.
pub proof fn law_to_display_monotone(m: SegmentMapView, a: int, b: int)
    requires
        m.wf(),
        a <= b,
    ensures
        0 <= m.to_display(a) <= m.to_display(b) <= m.display_len,
{
    lemma_first_ending_after(m.segments, a, true, 0);
    lemma_first_ending_after(m.segments, b, true, 0);
    let i = first_ending_after(m.segments, a, true, 0);
    let j = first_ending_after(m.segments, b, true, 0);
    if j < i {
        assert(b < m.segments[j].buffer_end);
        assert(a >= m.segments[j].buffer_end);
    }
    if i < j && j < m.segments.len() {
        assert(m.segments[i].display_end <= m.segments[j].display_start);
    }
}

/// A later display offset never maps before an earlier one, and always into the line.
pub proof fn law_to_buffer_monotone(m: SegmentMapView, a: int, b: int)
    requires
        m.wf(),
        a <= b,
    ensures
        m.buffer_start <= m.to_buffer(a) <= m.to_buffer(b) <= m.buffer_end,
{
    lemma_first_ending_after(m.segments, a, false, 0);
    lemma_first_ending_after(m.segments, b, false, 0);
    let i = first_ending_after(m.segments, a, false, 0);
    let j = first_ending_after(m.segments, b, false, 0);
    if 0 < a && a < m.display_len {
        if i > 0 {
            assert(a >= m.segments[i - 1].display_end);
        }
    }
    if 0 < b && b < m.display_len {
        if j > 0 {
            assert(b >= m.segments[j - 1].display_end);
        }
    }
    if j < i {
        assert(b < m.segments[j].display_end);
        assert(a >= m.segments[j].display_end);
    }
    if i < j && j < m.segments.len() {
        assert(m.segments[i].buffer_end <= m.segments[j].buffer_start);
    }
}

/// An offset that is shown verbatim comes back from its display offset, except
/// where that is the very start of a display whose line starts with hidden bytes:
/// the start of the display is the start of the line.
pub proof fn law_verbatim_round_trips(m: SegmentMapView, k: int, off: int)
    requires
        m.wf(),
        0 <= k < m.segments.len(),
        m.segments[k].verbatim,
        m.segments[k].buffer_start <= off < m.segments[k].buffer_end,
        m.to_display(off) > 0 || off == m.buffer_start,
    ensures
        m.to_buffer(m.to_display(off)) == off,
{
    let s = m.segments[k];
    if off > m.buffer_start {
        lemma_first_ending_after(m.segments, off, true, 0);
        let i = first_ending_after(m.segments, off, true, 0);
        if i < k {
            assert(m.segments[i].buffer_end <= s.buffer_start);
        }
        if k < i {
            assert(off >= m.segments[k].buffer_end);
        }
        assert(i == k);
        let d = m.to_display(off);
        assert(d == s.display_start + (off - s.buffer_start));
        lemma_first_ending_after(m.segments, d, false, 0);
        let j = first_ending_after(m.segments, d, false, 0);
        if j < k {
            assert(m.segments[j].display_end <= s.display_start);
        }
        if k < j {
            assert(d >= m.segments[k].display_end);
        }
        assert(j == k);
    }
}

/// A display offset inside verbatim text comes back from its buffer offset.
pub proof fn law_display_round_trips(m: SegmentMapView, k: int, d: int)
    requires
        m.wf(),
        0 <= k < m.segments.len(),
        m.segments[k].verbatim,
        m.segments[k].display_start <= d < m.segments[k].display_end,
    ensures
        m.to_display(m.to_buffer(d)) == d,
{
    let s = m.segments[k];
    if d > 0 {
        lemma_first_ending_after(m.segments, d, false, 0);
        let j = first_ending_after(m.segments, d, false, 0);
        if j < k {
            assert(m.segments[j].display_end <= s.display_start);
        }
        if k < j {
            assert(d >= m.segments[k].display_end);
        }
        assert(j == k);
        let off = m.to_buffer(d);
        assert(off == s.buffer_start + (d - s.display_start));
        lemma_first_ending_after(m.segments, off, true, 0);
        let i = first_ending_after(m.segments, off, true, 0);
        if i < k {
            assert(m.segments[i].buffer_end <= s.buffer_start);
        }
        if k < i {
            assert(off >= m.segments[k].buffer_end);
        }
        if off == m.buffer_start {
            if k > 0 {
                assert(m.segments[k - 1].buffer_end <= s.buffer_start);
                assert(m.segments[k - 1].buffer_start >= m.buffer_start);
            }
            assert(s.display_start == 0);
        }
    }
}

/// What is before the line is shown at the start of the display, and what is after it at
/// the end.
pub proof fn law_line_ends_are_display_ends(m: SegmentMapView, off: int)
    requires
        m.wf(),
    ensures
        off <= m.buffer_start ==> m.to_display(off) == 0,
        off >= m.buffer_end ==> m.to_display(off) == m.display_len,
{
    if m.segments.len() > 0 {
        assert(m.segments[0].buffer_start < m.segments[0].buffer_end);
    }
}

/// Display offset `d` is strictly inside a replaced token.
pub open spec fn splits_token(s: SegmentView, d: int) -> bool {
    !s.verbatim && s.display_start < d < s.display_end
}

/// Every display offset comes back from its buffer offset, which lies in the line, unless
/// it is strictly inside a replaced token. There the buffer offset is where the token
/// starts, and is shown where the token starts.
pub proof fn law_display_offsets_round_trip(m: SegmentMapView, d: int)
    requires
        m.wf(),
        0 <= d <= m.display_len,
    ensures
        m.buffer_start <= m.to_buffer(d) <= m.buffer_end,
        (forall|k: int| 0 <= k < m.segments.len() ==> !splits_token(#[trigger] m.segments[k], d))
            ==> m.to_display(m.to_buffer(d)) == d,
        forall|k: int|
            0 <= k < m.segments.len() && splits_token(#[trigger] m.segments[k], d) ==> m.to_buffer(
                d,
            ) == m.segments[k].buffer_start && m.to_display(m.to_buffer(d))
                == m.segments[k].display_start,
{
    law_to_buffer_monotone(m, d, d);
    law_line_ends_are_display_ends(m, m.buffer_start);
    law_line_ends_are_display_ends(m, m.buffer_end);
    if 0 < d < m.display_len {
        lemma_first_ending_after(m.segments, d, false, 0);
        let j = first_ending_after(m.segments, d, false, 0);
        assert(j < m.segments.len()) by {
            if j == m.segments.len() {
                assert(d >= m.segments[j - 1].display_end);
            }
        }
        let s = m.segments[j];
        if j > 0 {
            assert(d >= m.segments[j - 1].display_end);
        }
        assert(s.display_start <= d < s.display_end);
        if s.verbatim {
            law_display_round_trips(m, j, d);
        } else {
            lemma_display_of_segment(m, j, s.buffer_start);
            assert(splits_token(s, d) || d == s.display_start);
        }
    }
    assert forall|k: int|
        0 <= k < m.segments.len() && splits_token(#[trigger] m.segments[k], d) implies m.to_buffer(
        d,
    ) == m.segments[k].buffer_start && m.to_display(m.to_buffer(d))
        == m.segments[k].display_start by {
        let j = first_ending_after(m.segments, d, false, 0);
        if j < k {
            assert(m.segments[j].display_end <= m.segments[k].display_start);
        }
        if k < j {
            assert(d >= m.segments[k].display_end);
        }
        assert(j == k);
    }
}

// ---------------------------------------------------------------------------
// Cuts
// ---------------------------------------------------------------------------

/// A special lies in the line and its ends fall between characters.
pub open spec fn at_chars(sp: SpecialView, line: Seq<u8>, line_start: int) -> bool {
    is_slice(line, sp.start - line_start, sp.end - line_start)
}

proof fn lemma_insert_keeps_chars(
    sorted: Seq<SpecialView>,
    x: SpecialView,
    line: Seq<u8>,
    line_start: int,
)
    requires
        forall|i: int| 0 <= i < sorted.len() ==> at_chars(#[trigger] sorted[i], line, line_start),
        at_chars(x, line, line_start),
    ensures
        forall|i: int|
            0 <= i < insert_by_start(sorted, x).len() ==> at_chars(
                #[trigger] insert_by_start(sorted, x)[i],
                line,
                line_start,
            ),
    decreases sorted.len(),
{
    if sorted.len() > 0 && sorted.last().start > x.start {
        let rest = sorted.drop_last();
        assert forall|i: int| 0 <= i < rest.len() implies at_chars(
            #[trigger] rest[i],
            line,
            line_start,
        ) by {
            assert(at_chars(sorted[i], line, line_start));
        }
        lemma_insert_keeps_chars(rest, x, line, line_start);
        assert(at_chars(sorted[sorted.len() - 1], line, line_start));
        let mid = insert_by_start(rest, x);
        assert forall|i: int| 0 <= i < mid.len() + 1 implies at_chars(
            #[trigger] mid.push(sorted.last())[i],
            line,
            line_start,
        ) by {
            if i < mid.len() {
                assert(at_chars(mid[i], line, line_start));
            }
        }
    } else {
        assert forall|i: int| 0 <= i < sorted.push(x).len() implies at_chars(
            #[trigger] sorted.push(x)[i],
            line,
            line_start,
        ) by {
            if i < sorted.len() {
                assert(at_chars(sorted[i], line, line_start));
            }
        }
    }
}

proof fn lemma_line_specials_at_chars(specials: Seq<SpecialView>, line: Seq<u8>, line_start: int)
    requires
        forall|i: int|
            0 <= i < specials.len() && in_line(
                #[trigger] specials[i],
                line_start,
                line_start + line.len(),
            ) ==> at_chars(specials[i], line, line_start),
    ensures
        forall|i: int|
            0 <= i < line_specials(specials, line_start, line_start + line.len()).len()
                ==> at_chars(
                #[trigger] line_specials(specials, line_start, line_start + line.len())[i],
                line,
                line_start,
            ),
    decreases specials.len(),
{
    if specials.len() > 0 {
        let rest = specials.drop_last();
        assert forall|i: int|
            0 <= i < rest.len() && in_line(
                #[trigger] rest[i],
                line_start,
                line_start + line.len(),
            ) implies at_chars(rest[i], line, line_start) by {
            assert(rest[i] == specials[i]);
        }
        lemma_line_specials_at_chars(rest, line, line_start);
        if in_line(specials.last(), line_start, line_start + line.len()) {
            assert(specials.last() == specials[specials.len() - 1]);
            lemma_insert_keeps_chars(
                line_specials(rest, line_start, line_start + line.len()),
                specials.last(),
                line,
                line_start,
            );
        }
    }
}

proof fn lemma_pos_at_chars(line: Seq<u8>, line_start: int, sp: Seq<SpecialView>, k: int)
    requires
        valid_utf8(line),
        0 <= k <= sp.len(),
        forall|i: int| 0 <= i < sp.len() ==> at_chars(#[trigger] sp[i], line, line_start),
    ensures
        ({
            let pos = built_upto(line, line_start, sp, k).pos;
            0 <= pos - line_start <= line.len() && is_char_boundary(line, pos - line_start)
        }),
    decreases k,
{
    if k > 0 {
        lemma_pos_at_chars(line, line_start, sp, k - 1);
        assert(at_chars(sp[k - 1], line, line_start));
    } else {
        is_char_boundary_start_end_of_seq(line);
    }
}

/// A display can be built whenever the specials of the line start and end between
/// characters.
pub proof fn law_char_specials_cut(line: Seq<u8>, line_start: int, specials: Seq<SpecialView>)
    requires
        valid_utf8(line),
        forall|i: int|
            0 <= i < specials.len() && in_line(
                #[trigger] specials[i],
                line_start,
                line_start + line.len(),
            ) ==> at_chars(specials[i], line, line_start),
    ensures
        cuts_at_chars(line, line_start, specials),
{
    lemma_line_specials_at_chars(specials, line, line_start);
    let sp = line_specials(specials, line_start, line_start + line.len());
    let n = sp.len() as int;
    assert forall|k: int| 0 <= k < n implies ({
        let pos = (#[trigger] built_upto(line, line_start, sp, k)).pos;
        pos < sp[k].start ==> is_slice(line, pos - line_start, sp[k].start - line_start)
    }) by {
        lemma_pos_at_chars(line, line_start, sp, k);
        assert(at_chars(sp[k], line, line_start));
    }
    lemma_pos_at_chars(line, line_start, sp, n);
    is_char_boundary_start_end_of_seq(line);
}

proof fn lemma_first_stays_first(specials: Seq<SpecialView>, start: int, end: int)
    requires
        specials.len() > 0,
        specials[0].start == start,
        in_line(specials[0], start, end),
    ensures
        line_specials(specials, start, end).len() > 0,
        line_specials(specials, start, end)[0] == specials[0],
    decreases specials.len(),
{
    let rest = specials.drop_last();
    if rest.len() > 0 {
        assert(rest[0] == specials[0]);
        lemma_first_stays_first(rest, start, end);
        if in_line(specials.last(), start, end) {
            lemma_insert_behind_first(line_specials(rest, start, end), specials.last());
        }
    } else {
        assert(line_specials(rest, start, end) =~= Seq::<SpecialView>::empty());
        assert(specials.last() == specials[0]);
    }
}

proof fn lemma_insert_behind_first(sorted: Seq<SpecialView>, x: SpecialView)
    requires
        sorted.len() > 0,
        sorted[0].start <= x.start,
    ensures
        insert_by_start(sorted, x).len() > 0,
        insert_by_start(sorted, x)[0] == sorted[0],
    decreases sorted.len(),
{
    if sorted.last().start > x.start {
        assert(sorted.len() > 1);
        assert(sorted.drop_last()[0] == sorted[0]);
        lemma_insert_behind_first(sorted.drop_last(), x);
    }
}

proof fn lemma_nothing_after_end(line: Seq<u8>, line_start: int, sp: Seq<SpecialView>, k: int)
    requires
        1 <= k <= sp.len(),
        0 <= line_start,
        forall|i: int|
            0 <= i < sp.len() ==> in_line(#[trigger] sp[i], line_start, line_start + line.len()),
        sp[0] == (SpecialView { start: line_start, end: line_start + line.len(), shown: None }),
    ensures
        built_upto(line, line_start, sp, k) == (Built {
            pos: line_start + line.len(),
            display: seq![],
            segments: seq![],
        }),
    decreases k,
{
    reveal_with_fuel(built_upto, 2);
    if k > 1 {
        lemma_nothing_after_end(line, line_start, sp, k - 1);
        assert(in_line(sp[k - 1], line_start, line_start + line.len()));
    }
}

/// Hiding the whole line first leaves nothing to show, whatever else is hidden or
/// replaced.
pub proof fn law_whole_line_hidden(line: Seq<u8>, line_start: int, specials: Seq<SpecialView>)
    requires
        0 <= line_start,
        line.len() > 0 ==> specials.len() > 0 && specials[0] == (SpecialView {
            start: line_start,
            end: line_start + line.len(),
            shown: None,
        }),
    ensures
        built(line, line_start, specials).display == Seq::<u8>::empty(),
{
    let end = line_start + line.len();
    lemma_line_specials(specials, line_start, end);
    let sp = line_specials(specials, line_start, end);
    if line.len() > 0 {
        lemma_first_stays_first(specials, line_start, end);
        lemma_nothing_after_end(line, line_start, sp, sp.len() as int);
    } else if sp.len() > 0 {
        assert(in_line(sp[0], line_start, end));
    }
}

// ---------------------------------------------------------------------------
// Specials that stand apart
// ---------------------------------------------------------------------------

/// The specials of the line `start..end` do not overlap.
pub open spec fn apart(sp: Seq<SpecialView>, start: int, end: int) -> bool {
    forall|i: int, j: int|
        0 <= i < j < sp.len() && in_line(#[trigger] sp[i], start, end) && in_line(
            #[trigger] sp[j],
            start,
            end,
        ) ==> sp[i].end <= sp[j].start || sp[j].end <= sp[i].start
}

/// Each special is not empty and ends before the next one starts, or where it does.
spec fn in_a_row(sp: Seq<SpecialView>) -> bool {
    &&& forall|i: int| 0 <= i < sp.len() ==> (#[trigger] sp[i]).start < sp[i].end
    &&& forall|i: int, j: int|
        0 <= i < j < sp.len() ==> (#[trigger] sp[i]).end <= (#[trigger] sp[j]).start
}

proof fn lemma_insert_in_a_row(sorted: Seq<SpecialView>, x: SpecialView)
    requires
        in_a_row(sorted),
        x.start < x.end,
        forall|i: int|
            0 <= i < sorted.len() ==> (#[trigger] sorted[i]).end <= x.start || x.end
                <= sorted[i].start,
    ensures
        in_a_row(insert_by_start(sorted, x)),
        forall|e: SpecialView| #[trigger]
            insert_by_start(sorted, x).contains(e) <==> sorted.contains(e) || e == x,
    decreases sorted.len(),
{
    let r = insert_by_start(sorted, x);
    let n = sorted.len() as int;
    if n == 0 || sorted.last().start <= x.start {
        assert forall|e: SpecialView| #[trigger]
            r.contains(e) <==> sorted.contains(e) || e == x by {
            assert(r[n] == x);
            if sorted.contains(e) {
                let i = choose|i: int| 0 <= i < n && sorted[i] == e;
                assert(r[i] == e);
            }
            if r.contains(e) {
                let i = choose|i: int| 0 <= i < r.len() && r[i] == e;
                assert(i < n ==> sorted[i] == e);
            }
        }
        assert forall|i: int, j: int| 0 <= i < j < r.len() implies (#[trigger] r[i]).end <= (
        #[trigger] r[j]).start by {
            assert(r[i] == sorted[i]);
            assert(sorted[n - 1] == sorted.last());
            if i < n - 1 {
                assert(sorted[i].end <= sorted[n - 1].start);
            }
        }
    } else {
        let init = sorted.drop_last();
        let q = insert_by_start(init, x);
        assert(forall|i: int| 0 <= i < init.len() ==> init[i] == sorted[i]);
        lemma_insert_in_a_row(init, x);
        assert(r == q.push(sorted.last()));
        assert(sorted[n - 1] == sorted.last());
        assert forall|e: SpecialView| #[trigger]
            r.contains(e) <==> sorted.contains(e) || e == x by {
            assert(r[r.len() - 1] == sorted.last());
            if q.contains(e) {
                let i = choose|i: int| 0 <= i < q.len() && q[i] == e;
                assert(r[i] == e);
            }
            if init.contains(e) {
                let i = choose|i: int| 0 <= i < init.len() && init[i] == e;
                assert(sorted[i] == e);
            }
            if sorted.contains(e) {
                let i = choose|i: int| 0 <= i < n && sorted[i] == e;
                assert(i < n - 1 ==> init[i] == e);
            }
            if r.contains(e) {
                let i = choose|i: int| 0 <= i < r.len() && r[i] == e;
                assert(i < q.len() ==> q[i] == e);
            }
        }
        assert forall|i: int, j: int| 0 <= i < j < r.len() implies (#[trigger] r[i]).end <= (
        #[trigger] r[j]).start by {
            assert(r[i] == q[i]);
            if j < q.len() {
                assert(r[j] == q[j]);
            } else {
                assert(q.contains(q[i]));
                if q[i] != x {
                    let a = choose|a: int| 0 <= a < init.len() && init[a] == q[i];
                    assert(sorted[a].end <= sorted[n - 1].start);
                }
            }
        }
        assert forall|i: int| 0 <= i < r.len() implies (#[trigger] r[i]).start < r[i].end by {
            if i < q.len() {
                assert(r[i] == q[i]);
            }
        }
    }
}

proof fn lemma_specials_in_a_row(sp: Seq<SpecialView>, start: int, end: int)
    requires
        apart(sp, start, end),
    ensures
        in_a_row(line_specials(sp, start, end)),
        forall|e: SpecialView| #[trigger]
            line_specials(sp, start, end).contains(e) <==> sp.contains(e) && in_line(e, start, end),
    decreases sp.len(),
{
    let all = line_specials(sp, start, end);
    if sp.len() > 0 {
        let init = sp.drop_last();
        let n = sp.len() as int;
        let x = sp.last();
        let rest = line_specials(init, start, end);
        assert(sp[n - 1] == x);
        assert(forall|i: int| 0 <= i < init.len() ==> init[i] == sp[i]);
        lemma_specials_in_a_row(init, start, end);
        if in_line(x, start, end) {
            assert forall|i: int| 0 <= i < rest.len() implies (#[trigger] rest[i]).end <= x.start
                || x.end <= rest[i].start by {
                assert(rest.contains(rest[i]));
                let j = choose|j: int| 0 <= j < init.len() && init[j] == rest[i];
                assert(in_line(sp[j], start, end) && in_line(sp[n - 1], start, end));
            }
            lemma_insert_in_a_row(rest, x);
        }
        assert forall|e: SpecialView| #[trigger]
            all.contains(e) <==> sp.contains(e) && in_line(e, start, end) by {
            if init.contains(e) {
                let i = choose|i: int| 0 <= i < init.len() && init[i] == e;
                assert(sp[i] == e);
            }
            if sp.contains(e) {
                let i = choose|i: int| 0 <= i < n && sp[i] == e;
                assert(i < n - 1 ==> init[i] == e);
            }
            assert(all.contains(e) <==> rest.contains(e) || (in_line(x, start, end) && e == x));
        }
    }
}

proof fn lemma_row_is_unique(x: Seq<SpecialView>, y: Seq<SpecialView>)
    requires
        in_a_row(x),
        in_a_row(y),
        forall|e: SpecialView| #[trigger] x.contains(e) <==> y.contains(e),
    ensures
        x == y,
    decreases x.len(),
{
    if x.len() == 0 {
        if y.len() > 0 {
            assert(y.contains(y[0]));
            assert(x.contains(y[0]));
        }
        assert(x =~= y);
    } else {
        let n = x.len() as int;
        let m = y.len() as int;
        assert(x.contains(x[n - 1]));
        assert(y.contains(x[n - 1]));
        let j = choose|j: int| 0 <= j < m && y[j] == x[n - 1];
        assert(y.contains(y[m - 1]));
        assert(x.contains(y[m - 1]));
        let i = choose|i: int| 0 <= i < n && x[i] == y[m - 1];
        if j < m - 1 && i < n - 1 {
            assert(y[j].end <= y[m - 1].start);
            assert(x[i].end <= x[n - 1].start);
        }
        if j < m - 1 && i == n - 1 {
            assert(y[j].end <= y[m - 1].start);
        }
        assert(x[n - 1] == y[m - 1]);
        let a = x.drop_last();
        let b = y.drop_last();
        assert forall|e: SpecialView| #[trigger] a.contains(e) <==> b.contains(e) by {
            if a.contains(e) {
                let k = choose|k: int| 0 <= k < a.len() && a[k] == e;
                assert(x[k] == e && x[k].end <= x[n - 1].start);
                assert(x.contains(e));
                let l = choose|l: int| 0 <= l < m && y[l] == e;
                assert(l < m - 1);
                assert(b[l] == e);
            }
            if b.contains(e) {
                let k = choose|k: int| 0 <= k < b.len() && b[k] == e;
                assert(y[k] == e && y[k].end <= y[m - 1].start);
                assert(y.contains(e));
                assert(x.contains(e));
                let l = choose|l: int| 0 <= l < n && x[l] == e;
                assert(l < n - 1);
                assert(a[l] == e);
            }
        }
        lemma_row_is_unique(a, b);
        assert(x =~= a.push(x[n - 1]));
        assert(y =~= b.push(y[m - 1]));
    }
}

/// Specials that stand apart give the same display and the same map in any order.
pub proof fn law_order_of_specials_is_free(
    line: Seq<u8>,
    line_start: int,
    a: Seq<SpecialView>,
    b: Seq<SpecialView>,
)
    requires
        apart(a, line_start, line_start + line.len()),
        apart(b, line_start, line_start + line.len()),
        forall|e: SpecialView| #[trigger] a.contains(e) <==> b.contains(e),
    ensures
        built(line, line_start, a) == built(line, line_start, b),
        built_map(line, line_start, a) == built_map(line, line_start, b),
{
    let end = line_start + line.len();
    lemma_specials_in_a_row(a, line_start, end);
    lemma_specials_in_a_row(b, line_start, end);
    let x = line_specials(a, line_start, end);
    let y = line_specials(b, line_start, end);
    assert forall|e: SpecialView| #[trigger] x.contains(e) <==> y.contains(e) by {
        assert(a.contains(e) <==> b.contains(e));
    }
    lemma_row_is_unique(x, y);
}

/// The segment of a replaced token.
spec fn is_token(s: SegmentView, sp: SpecialView) -> bool {
    &&& s.buffer_start == sp.start && s.buffer_end == sp.end
    &&& !s.verbatim
    &&& s.display_end - s.display_start == sp.shown->Some_0.len()
}

/// The segment is that of one of the first `k` specials, a replaced token.
spec fn is_some_token(s: SegmentView, sp: Seq<SpecialView>, k: int) -> bool {
    exists|i: int| 0 <= i < k && (#[trigger] sp[i]).shown is Some && is_token(s, sp[i])
}

/// The segment shows byte `off` of the buffer as it is.
spec fn shows(s: SegmentView, off: int) -> bool {
    s.verbatim && s.buffer_start <= off < s.buffer_end
}

/// Byte `off` of the buffer is in the special.
pub open spec fn in_special(sp: SpecialView, off: int) -> bool {
    sp.start <= off < sp.end
}

/// Byte `off` of the buffer is in one of the first `k` specials, or shown as it is.
spec fn accounted(b: Built, sp: Seq<SpecialView>, k: int, off: int) -> bool {
    ||| exists|i: int| 0 <= i < k && in_special(#[trigger] sp[i], off)
    ||| exists|x: int| 0 <= x < b.segments.len() && #[trigger] shows(b.segments[x], off)
}

/// What is done holds a segment for every token, none in what is hidden, and shows every
/// other byte.
spec fn covers(b: Built, line_start: int, sp: Seq<SpecialView>, k: int) -> bool {
    &&& forall|i: int| 0 <= i < k ==> (#[trigger] sp[i]).end <= b.pos
    &&& forall|i: int|
        0 <= i < k && (#[trigger] sp[i]).shown is Some ==> exists|x: int|
            0 <= x < b.segments.len() && is_token(#[trigger] b.segments[x], sp[i])
    &&& forall|i: int, x: int|
        0 <= i < k && (#[trigger] sp[i]).shown is None && 0 <= x < b.segments.len() ==> (
        #[trigger] b.segments[x]).buffer_end <= sp[i].start || sp[i].end
            <= b.segments[x].buffer_start
    &&& forall|off: int| line_start <= off < b.pos ==> #[trigger] accounted(b, sp, k, off)
}

proof fn lemma_copied_covers(
    b: Built,
    line: Seq<u8>,
    line_start: int,
    to: int,
    sp: Seq<SpecialView>,
    k: int,
)
    requires
        built_wf(b, line_start, line_start + line.len()),
        covers(b, line_start, sp, k),
        b.pos <= to <= line_start + line.len(),
    ensures
        covers(copied(b, line, line_start, to), line_start, sp, k),
{
    let c = copied(b, line, line_start, to);
    if to > b.pos {
        let n = b.segments.len() as int;
        assert forall|x: int| 0 <= x < n implies c.segments[x] == b.segments[x] by {}
        assert forall|i: int| 0 <= i < k && (#[trigger] sp[i]).shown is Some implies exists|x: int|
            0 <= x < c.segments.len() && is_token(#[trigger] c.segments[x], sp[i]) by {
            let x = choose|x: int|
                0 <= x < b.segments.len() && is_token(#[trigger] b.segments[x], sp[i]);
            assert(is_token(c.segments[x], sp[i]));
        }
        assert forall|off: int| line_start <= off < c.pos implies #[trigger] accounted(
            c,
            sp,
            k,
            off,
        ) by {
            if off < b.pos {
                assert(accounted(b, sp, k, off));
                if !(exists|i: int| 0 <= i < k && in_special(#[trigger] sp[i], off)) {
                    let x = choose|x: int|
                        0 <= x < b.segments.len() && #[trigger] shows(b.segments[x], off);
                    assert(shows(c.segments[x], off));
                }
            } else {
                assert(shows(c.segments[n], off));
            }
        }
    }
}

proof fn lemma_built_covers(line: Seq<u8>, line_start: int, sp: Seq<SpecialView>, k: int)
    requires
        0 <= line_start,
        0 <= k <= sp.len(),
        in_a_row(sp),
        forall|i: int|
            0 <= i < sp.len() ==> in_line(#[trigger] sp[i], line_start, line_start + line.len()),
    ensures
        covers(built_upto(line, line_start, sp, k), line_start, sp, k),
        k < sp.len() ==> built_upto(line, line_start, sp, k).pos <= sp[k].start,
    decreases k,
{
    if k > 0 {
        lemma_built_covers(line, line_start, sp, k - 1);
        lemma_built_upto_wf(line, line_start, sp, k - 1);
        let b = built_upto(line, line_start, sp, k - 1);
        let x = sp[k - 1];
        let c = copied(b, line, line_start, x.start);
        lemma_copied_covers(b, line, line_start, x.start, sp, k - 1);
        lemma_copied_wf(b, line, line_start, x.start);
        let d = built_upto(line, line_start, sp, k);
        let n = c.segments.len() as int;
        assert(d == replaced(b, line, line_start, x));
        assert(c.pos == x.start);
        assert forall|i: int| 0 <= i < n implies d.segments[i] == c.segments[i] by {}
        assert forall|i: int| 0 <= i < k && (#[trigger] sp[i]).shown is Some implies exists|y: int|
            0 <= y < d.segments.len() && is_token(#[trigger] d.segments[y], sp[i]) by {
            if i < k - 1 {
                let y = choose|y: int|
                    0 <= y < c.segments.len() && is_token(#[trigger] c.segments[y], sp[i]);
                assert(is_token(d.segments[y], sp[i]));
            } else {
                assert(is_token(d.segments[n], sp[i]));
            }
        }
        assert forall|i: int, y: int|
            0 <= i < k && (#[trigger] sp[i]).shown is None && 0 <= y < d.segments.len() implies (
        #[trigger] d.segments[y]).buffer_end <= sp[i].start || sp[i].end
            <= d.segments[y].buffer_start by {
            if y < n {
                assert(c.segments[y].buffer_end <= c.pos);
            } else {
                assert(sp[i].end <= x.start);
            }
        }
        assert forall|off: int| line_start <= off < d.pos implies #[trigger] accounted(
            d,
            sp,
            k,
            off,
        ) by {
            if off < c.pos {
                assert(accounted(c, sp, k - 1, off));
                if exists|i: int| 0 <= i < k - 1 && in_special(#[trigger] sp[i], off) {
                    let i = choose|i: int| 0 <= i < k - 1 && in_special(#[trigger] sp[i], off);
                    assert(in_special(sp[i], off));
                } else {
                    let y = choose|y: int|
                        0 <= y < c.segments.len() && #[trigger] shows(c.segments[y], off);
                    assert(shows(d.segments[y], off));
                }
            } else {
                assert(in_special(sp[k - 1], off));
            }
        }
    }
}

/// Segment `x` of what is done after the first `k` specials, where it is not verbatim, is
/// that of a replaced token.
proof fn lemma_others_are_tokens(
    line: Seq<u8>,
    line_start: int,
    sp: Seq<SpecialView>,
    k: int,
    x: int,
)
    requires
        0 <= k <= sp.len(),
        0 <= x < built_upto(line, line_start, sp, k).segments.len(),
        !built_upto(line, line_start, sp, k).segments[x].verbatim,
    ensures
        is_some_token(built_upto(line, line_start, sp, k).segments[x], sp, k),
    decreases k,
{
    if k > 0 {
        let b = built_upto(line, line_start, sp, k - 1);
        let d = built_upto(line, line_start, sp, k);
        let s = d.segments[x];
        if x < b.segments.len() {
            assert(s == b.segments[x]);
            lemma_others_are_tokens(line, line_start, sp, k - 1, x);
            let i = choose|i: int|
                0 <= i < k - 1 && (#[trigger] sp[i]).shown is Some && is_token(s, sp[i]);
            assert(sp[i].shown is Some && is_token(s, sp[i]));
        } else {
            assert(sp[k - 1].shown is Some && is_token(s, sp[k - 1]));
        }
    }
}

proof fn lemma_map_covers(line: Seq<u8>, line_start: int, specials: Seq<SpecialView>)
    requires
        0 <= line_start,
        apart(specials, line_start, line_start + line.len()),
    ensures
        ({
            let sp = line_specials(specials, line_start, line_start + line.len());
            covers(built(line, line_start, specials), line_start, sp, sp.len() as int)
        }),
        built(line, line_start, specials).pos == line_start + line.len(),
{
    let end = line_start + line.len();
    let sp = line_specials(specials, line_start, end);
    let n = sp.len() as int;
    lemma_line_specials(specials, line_start, end);
    lemma_specials_in_a_row(specials, line_start, end);
    lemma_built_upto_wf(line, line_start, sp, n);
    lemma_built_covers(line, line_start, sp, n);
    lemma_copied_covers(built_upto(line, line_start, sp, n), line, line_start, end, sp, n);
    lemma_copied_wf(built_upto(line, line_start, sp, n), line, line_start, end);
}

/// The segment of a replaced token.
proof fn lemma_token_segment(line: Seq<u8>, line_start: int, specials: Seq<SpecialView>, i: int)
    requires
        0 <= line_start,
        apart(specials, line_start, line_start + line.len()),
        0 <= i < specials.len(),
        in_line(specials[i], line_start, line_start + line.len()),
        specials[i].shown is Some,
    ensures
        built_map(line, line_start, specials).wf(),
        exists|k: int|
            0 <= k < built_map(line, line_start, specials).segments.len() && is_token(
                #[trigger] built_map(line, line_start, specials).segments[k],
                specials[i],
            ),
{
    let end = line_start + line.len();
    let x = specials[i];
    let sp = line_specials(specials, line_start, end);
    let m = built_map(line, line_start, specials);
    lemma_map_covers(line, line_start, specials);
    lemma_built_map_wf(line, line_start, specials);
    lemma_specials_in_a_row(specials, line_start, end);
    assert(specials.contains(x));
    assert(sp.contains(x));
    let j = choose|j: int| 0 <= j < sp.len() && sp[j] == x;
    assert(sp[j].shown is Some);
    let k = choose|k: int| 0 <= k < m.segments.len() && is_token(#[trigger] m.segments[k], sp[j]);
    assert(is_token(m.segments[k], x));
}

/// A replaced token is atomic: every byte of the buffer in it is shown where the token
/// starts, also where the token is shown as the empty text.
pub proof fn law_tokens_are_atomic(
    line: Seq<u8>,
    line_start: int,
    specials: Seq<SpecialView>,
    i: int,
    off: int,
)
    requires
        0 <= line_start,
        apart(specials, line_start, line_start + line.len()),
        0 <= i < specials.len(),
        in_line(specials[i], line_start, line_start + line.len()),
        specials[i].shown is Some,
        in_special(specials[i], off),
    ensures
        built_map(line, line_start, specials).to_display(off) == built_map(
            line,
            line_start,
            specials,
        ).to_display(specials[i].start),
{
    let x = specials[i];
    let m = built_map(line, line_start, specials);
    lemma_token_segment(line, line_start, specials, i);
    let k = choose|k: int| 0 <= k < m.segments.len() && is_token(#[trigger] m.segments[k], x);
    lemma_display_of_segment(m, k, off);
    lemma_display_of_segment(m, k, x.start);
}

/// Every display offset in a replaced token stands for its start in the buffer. The one
/// exception is the very start of a display whose line starts with hidden bytes: that is
/// the start of the line.
pub proof fn law_token_offsets_are_its_start(
    line: Seq<u8>,
    line_start: int,
    specials: Seq<SpecialView>,
    i: int,
    d: int,
)
    requires
        0 <= line_start,
        apart(specials, line_start, line_start + line.len()),
        0 <= i < specials.len(),
        in_line(specials[i], line_start, line_start + line.len()),
        specials[i].shown is Some,
        0 <= d < specials[i].shown->Some_0.len(),
    ensures
        ({
            let m = built_map(line, line_start, specials);
            let at = m.to_display(specials[i].start);
            &&& at + d < m.display_len
            &&& at + d > 0 || specials[i].start == line_start ==> m.to_buffer(at + d)
                == specials[i].start
        }),
{
    let x = specials[i];
    let m = built_map(line, line_start, specials);
    lemma_token_segment(line, line_start, specials, i);
    let k = choose|k: int| 0 <= k < m.segments.len() && is_token(#[trigger] m.segments[k], x);
    let s = m.segments[k];
    lemma_display_of_segment(m, k, x.start);
    lemma_first_ending_after(m.segments, s.display_start + d, false, 0);
    let f = first_ending_after(m.segments, s.display_start + d, false, 0);
    if f < k {
        assert(m.segments[f].display_end <= s.display_start);
    }
    if k < f {
        assert(s.display_start + d >= m.segments[k].display_end);
    }
    assert(f == k);
    assert(s.display_end <= m.display_len);
}

/// Where a buffer offset inside a segment is shown.
proof fn lemma_display_of_segment(m: SegmentMapView, k: int, off: int)
    requires
        m.wf(),
        0 <= k < m.segments.len(),
        m.segments[k].buffer_start <= off < m.segments[k].buffer_end,
    ensures
        m.to_display(off) == (if m.segments[k].verbatim {
            m.segments[k].display_start + (off - m.segments[k].buffer_start)
        } else {
            m.segments[k].display_start
        }),
{
    let s = m.segments[k];
    lemma_first_ending_after(m.segments, off, true, 0);
    let f = first_ending_after(m.segments, off, true, 0);
    if f < k {
        assert(m.segments[f].buffer_end <= s.buffer_start);
    }
    if k < f {
        assert(off >= m.segments[k].buffer_end);
    }
    assert(f == k);
    if off <= m.buffer_start {
        if k > 0 {
            assert(m.segments[k - 1].buffer_end <= s.buffer_start);
            assert(m.segments[k - 1].buffer_start < m.segments[k - 1].buffer_end);
        }
    }
}

/// A hidden range collapses to one place of the display, both its ends included.
pub proof fn law_hidden_bytes_collapse(
    line: Seq<u8>,
    line_start: int,
    specials: Seq<SpecialView>,
    i: int,
    off: int,
)
    requires
        0 <= line_start,
        apart(specials, line_start, line_start + line.len()),
        0 <= i < specials.len(),
        in_line(specials[i], line_start, line_start + line.len()),
        specials[i].shown is None,
        specials[i].start <= off <= specials[i].end,
    ensures
        built_map(line, line_start, specials).to_display(off) == built_map(
            line,
            line_start,
            specials,
        ).to_display(specials[i].start),
{
    let end = line_start + line.len();
    let x = specials[i];
    let sp = line_specials(specials, line_start, end);
    let m = built_map(line, line_start, specials);
    lemma_map_covers(line, line_start, specials);
    lemma_built_map_wf(line, line_start, specials);
    lemma_specials_in_a_row(specials, line_start, end);
    assert(specials.contains(x));
    assert(sp.contains(x));
    let j = choose|j: int| 0 <= j < sp.len() && sp[j] == x;
    assert(sp[j].shown is None);
    assert forall|k: int| 0 <= k < m.segments.len() implies (
    #[trigger] m.segments[k]).buffer_end <= x.start || x.end <= m.segments[k].buffer_start by {
        assert(m.segments[k] == built(line, line_start, specials).segments[k]);
    }
    lemma_first_ending_after(m.segments, off, true, 0);
    lemma_first_ending_after(m.segments, x.start, true, 0);
    let f = first_ending_after(m.segments, off, true, 0);
    let g = first_ending_after(m.segments, x.start, true, 0);
    if f < g {
        assert(x.start >= m.segments[f].buffer_end);
        assert(off < m.segments[f].buffer_end);
    }
    if g < f {
        assert(off >= m.segments[g].buffer_end);
        assert(x.end <= m.segments[g].buffer_start);
        assert(m.segments[g].buffer_start < m.segments[g].buffer_end);
    }
    assert(f == g);
    if f < m.segments.len() {
        assert(x.end <= m.segments[f].buffer_start);
        if x.start == m.buffer_start && f > 0 {
            assert(m.segments[0].buffer_end <= x.start);
            assert(m.segments[0].buffer_start < m.segments[0].buffer_end);
        }
    } else if m.segments.len() > 0 {
        assert(m.segments[0].buffer_end <= x.start);
        assert(m.segments[0].buffer_start < m.segments[0].buffer_end);
    }
}

/// A byte that is in no special is shown as it is, and its offset comes back from its
/// display offset, except where that is the very start of a display whose line starts with
/// hidden bytes: the start of the display is the start of the line.
pub proof fn law_other_bytes_round_trip(
    line: Seq<u8>,
    line_start: int,
    specials: Seq<SpecialView>,
    off: int,
)
    requires
        0 <= line_start,
        apart(specials, line_start, line_start + line.len()),
        line_start <= off < line_start + line.len(),
        forall|i: int|
            0 <= i < specials.len() && in_line(
                #[trigger] specials[i],
                line_start,
                line_start + line.len(),
            ) ==> !in_special(specials[i], off),
        built_map(line, line_start, specials).to_display(off) > 0 || off == line_start,
    ensures
        built_map(line, line_start, specials).to_buffer(
            built_map(line, line_start, specials).to_display(off),
        ) == off,
{
    let end = line_start + line.len();
    let sp = line_specials(specials, line_start, end);
    let m = built_map(line, line_start, specials);
    lemma_map_covers(line, line_start, specials);
    lemma_built_map_wf(line, line_start, specials);
    lemma_specials_in_a_row(specials, line_start, end);
    assert forall|i: int| 0 <= i < sp.len() implies !in_special(#[trigger] sp[i], off) by {
        assert(sp.contains(sp[i]));
        let j = choose|j: int| 0 <= j < specials.len() && specials[j] == sp[i];
        assert(in_line(specials[j], line_start, end));
    }
    assert(accounted(built(line, line_start, specials), sp, sp.len() as int, off));
    let k = choose|k: int| 0 <= k < m.segments.len() && #[trigger] shows(m.segments[k], off);
    assert(shows(m.segments[k], off));
    law_verbatim_round_trips(m, k, off);
}

/// Display offset `d` is strictly inside what a replaced token of the line shows.
pub open spec fn inside_token(
    line: Seq<u8>,
    line_start: int,
    specials: Seq<SpecialView>,
    x: SpecialView,
    d: int,
) -> bool {
    let at = built_map(line, line_start, specials).to_display(x.start);
    &&& specials.contains(x)
    &&& in_line(x, line_start, line_start + line.len())
    &&& x.shown is Some
    &&& at < d < at + x.shown->Some_0.len()
}

/// Every offset of the display of a line comes back from its buffer offset, which lies in
/// the line, unless it is strictly inside a replaced token. There the buffer offset is
/// where the token starts, and is shown where the token starts.
pub proof fn law_built_offsets_round_trip(
    line: Seq<u8>,
    line_start: int,
    specials: Seq<SpecialView>,
    d: int,
)
    requires
        0 <= line_start,
        apart(specials, line_start, line_start + line.len()),
        0 <= d <= built_map(line, line_start, specials).display_len,
    ensures
        ({
            let m = built_map(line, line_start, specials);
            let b = m.to_buffer(d);
            &&& line_start <= b <= line_start + line.len()
            &&& (forall|x: SpecialView| !#[trigger] inside_token(line, line_start, specials, x, d))
                ==> m.to_display(b) == d
            &&& forall|x: SpecialView| #[trigger]
                inside_token(line, line_start, specials, x, d) ==> b == x.start && m.to_display(b)
                    == m.to_display(x.start)
        }),
{
    let end = line_start + line.len();
    let sp = line_specials(specials, line_start, end);
    let m = built_map(line, line_start, specials);
    lemma_built_map_wf(line, line_start, specials);
    lemma_specials_in_a_row(specials, line_start, end);
    law_display_offsets_round_trip(m, d);
    if forall|x: SpecialView| !#[trigger] inside_token(line, line_start, specials, x, d) {
        assert forall|k: int| 0 <= k < m.segments.len() implies !splits_token(
            #[trigger] m.segments[k],
            d,
        ) by {
            let s = m.segments[k];
            if splits_token(s, d) {
                let b = built_upto(line, line_start, sp, sp.len() as int);
                assert(k < b.segments.len() && s == b.segments[k]);
                lemma_others_are_tokens(line, line_start, sp, sp.len() as int, k);
                let i = choose|i: int|
                    0 <= i < sp.len() && (#[trigger] sp[i]).shown is Some && is_token(s, sp[i]);
                assert(sp.contains(sp[i]));
                lemma_display_of_segment(m, k, s.buffer_start);
                assert(inside_token(line, line_start, specials, sp[i], d));
            }
        }
    }
    assert forall|x: SpecialView| #[trigger]
        inside_token(line, line_start, specials, x, d) implies m.to_buffer(d) == x.start by {
        let i = choose|i: int| 0 <= i < specials.len() && specials[i] == x;
        lemma_token_segment(line, line_start, specials, i);
        let k = choose|k: int| 0 <= k < m.segments.len() && is_token(#[trigger] m.segments[k], x);
        lemma_display_of_segment(m, k, x.start);
        assert(splits_token(m.segments[k], d));
    }
}

// ---------------------------------------------------------------------------
// What is shown
// ---------------------------------------------------------------------------

/// Special `x` of the line `start..end` starts at `off`.
pub open spec fn starts_at(
    specials: Seq<SpecialView>,
    start: int,
    end: int,
    x: SpecialView,
    off: int,
) -> bool {
    specials.contains(x) && in_line(x, start, end) && x.start == off
}

/// Byte `off` is in special `x` of the line `start..end`.
pub open spec fn holds_byte(
    specials: Seq<SpecialView>,
    start: int,
    end: int,
    x: SpecialView,
    off: int,
) -> bool {
    specials.contains(x) && in_line(x, start, end) && in_special(x, off)
}

/// What is shown in place of the byte at `off`: at the start of a special what the special
/// shows, nothing in the rest of it, and elsewhere the byte itself.
pub open spec fn shown_at(
    line: Seq<u8>,
    line_start: int,
    specials: Seq<SpecialView>,
    off: int,
) -> Seq<u8> {
    let end = line_start + line.len();
    if exists|x: SpecialView| #[trigger] starts_at(specials, line_start, end, x, off) {
        let x = choose|x: SpecialView| #[trigger] starts_at(specials, line_start, end, x, off);
        match x.shown {
            None => seq![],
            Some(token) => token,
        }
    } else if exists|x: SpecialView| #[trigger] holds_byte(specials, line_start, end, x, off) {
        seq![]
    } else {
        seq![line[off - line_start]]
    }
}

/// What is shown in place of the bytes from the start of the line to `to`.
pub open spec fn shown_upto(
    line: Seq<u8>,
    line_start: int,
    specials: Seq<SpecialView>,
    to: int,
) -> Seq<u8>
    decreases to - line_start,
{
    if to <= line_start {
        seq![]
    } else {
        shown_upto(line, line_start, specials, to - 1) + shown_at(
            line,
            line_start,
            specials,
            to - 1,
        )
    }
}

/// The line with its hidden ranges removed and its tokens put in place of what they stand
/// for.
pub open spec fn shown_line(line: Seq<u8>, line_start: int, specials: Seq<SpecialView>) -> Seq<
    u8,
> {
    shown_upto(line, line_start, specials, line_start + line.len())
}

proof fn lemma_shown_plain(
    line: Seq<u8>,
    line_start: int,
    specials: Seq<SpecialView>,
    from: int,
    to: int,
)
    requires
        line_start <= from <= to <= line_start + line.len(),
        forall|x: SpecialView, off: int|
            from <= off < to ==> !#[trigger] holds_byte(
                specials,
                line_start,
                line_start + line.len(),
                x,
                off,
            ),
    ensures
        shown_upto(line, line_start, specials, to) == shown_upto(line, line_start, specials, from)
            + line.subrange(from - line_start, to - line_start),
    decreases to - from,
{
    let end = line_start + line.len();
    if from == to {
        assert(line.subrange(from - line_start, to - line_start) =~= Seq::<u8>::empty());
    } else {
        lemma_shown_plain(line, line_start, specials, from, to - 1);
        assert forall|x: SpecialView| !#[trigger] starts_at(
            specials,
            line_start,
            end,
            x,
            to - 1,
        ) by {
            assert(!holds_byte(specials, line_start, end, x, to - 1));
        }
        assert(shown_at(line, line_start, specials, to - 1) =~= seq![line[to - 1 - line_start]]);
        assert(line.subrange(from - line_start, to - line_start) =~= line.subrange(
            from - line_start,
            to - 1 - line_start,
        ) + seq![line[to - 1 - line_start]]);
    }
}

proof fn lemma_shown_special(
    line: Seq<u8>,
    line_start: int,
    specials: Seq<SpecialView>,
    x: SpecialView,
    to: int,
)
    requires
        apart(specials, line_start, line_start + line.len()),
        specials.contains(x),
        in_line(x, line_start, line_start + line.len()),
        x.start < to <= x.end,
    ensures
        shown_upto(line, line_start, specials, to) == shown_upto(
            line,
            line_start,
            specials,
            x.start,
        ) + (match x.shown {
            None => seq![],
            Some(token) => token,
        }),
    decreases to - x.start,
{
    let end = line_start + line.len();
    let sp = line_specials(specials, line_start, end);
    lemma_specials_in_a_row(specials, line_start, end);
    assert(sp.contains(x));
    let k = choose|k: int| 0 <= k < sp.len() && sp[k] == x;
    assert forall|y: SpecialView| #[trigger]
        starts_at(specials, line_start, end, y, to - 1) implies y == x && to - 1 == x.start by {
        assert(sp.contains(y));
        let j = choose|j: int| 0 <= j < sp.len() && sp[j] == y;
        if j < k {
            assert(sp[j].end <= sp[k].start);
        }
        if k < j {
            assert(sp[k].end <= sp[j].start);
        }
    }
    if to - 1 == x.start {
        assert(starts_at(specials, line_start, end, x, to - 1));
    } else {
        lemma_shown_special(line, line_start, specials, x, to - 1);
        assert(holds_byte(specials, line_start, end, x, to - 1));
        assert(shown_at(line, line_start, specials, to - 1) =~= Seq::<u8>::empty());
    }
}

proof fn lemma_built_shows(line: Seq<u8>, line_start: int, specials: Seq<SpecialView>, k: int)
    requires
        0 <= line_start,
        apart(specials, line_start, line_start + line.len()),
        0 <= k <= line_specials(specials, line_start, line_start + line.len()).len(),
    ensures
        ({
            let sp = line_specials(specials, line_start, line_start + line.len());
            let b = built_upto(line, line_start, sp, k);
            &&& line_start <= b.pos <= line_start + line.len()
            &&& k == 0 ==> b.pos == line_start
            &&& k > 0 ==> b.pos == sp[k - 1].end
            &&& b.display == shown_upto(line, line_start, specials, b.pos)
        }),
    decreases k,
{
    let end = line_start + line.len();
    let sp = line_specials(specials, line_start, end);
    if k > 0 {
        lemma_built_shows(line, line_start, specials, k - 1);
        lemma_specials_in_a_row(specials, line_start, end);
        let b = built_upto(line, line_start, sp, k - 1);
        let x = sp[k - 1];
        assert(sp.contains(x));
        if k > 1 {
            assert(sp[k - 2].end <= sp[k - 1].start);
        }
        assert(b.pos <= x.start);
        lemma_gap_is_plain(line, line_start, specials, k - 1, x.start);
        lemma_shown_plain(line, line_start, specials, b.pos, x.start);
        lemma_shown_special(line, line_start, specials, x, x.end);
        let c = copied(b, line, line_start, x.start);
        if b.pos == x.start {
            assert(line.subrange(b.pos - line_start, x.start - line_start) =~= Seq::<u8>::empty());
        }
        assert(c.display =~= shown_upto(line, line_start, specials, x.start));
        let d = built_upto(line, line_start, sp, k);
        assert(d == replaced(b, line, line_start, x));
        assert(d.display =~= shown_upto(line, line_start, specials, x.end));
    }
}

/// No special holds a byte between the first `k` specials and the next one.
proof fn lemma_gap_is_plain(
    line: Seq<u8>,
    line_start: int,
    specials: Seq<SpecialView>,
    k: int,
    to: int,
)
    requires
        0 <= line_start,
        apart(specials, line_start, line_start + line.len()),
        0 <= k <= line_specials(specials, line_start, line_start + line.len()).len(),
        ({
            let sp = line_specials(specials, line_start, line_start + line.len());
            to <= (if k < sp.len() {
                sp[k].start
            } else {
                line_start + line.len()
            })
        }),
    ensures
        ({
            let sp = line_specials(specials, line_start, line_start + line.len());
            forall|x: SpecialView, off: int|
                (k == 0 || sp[k - 1].end <= off) && off < to ==> !#[trigger] holds_byte(
                    specials,
                    line_start,
                    line_start + line.len(),
                    x,
                    off,
                )
        }),
{
    let end = line_start + line.len();
    let sp = line_specials(specials, line_start, end);
    lemma_specials_in_a_row(specials, line_start, end);
    assert forall|x: SpecialView, off: int|
        (k == 0 || sp[k - 1].end <= off) && off < to implies !#[trigger] holds_byte(
        specials,
        line_start,
        end,
        x,
        off,
    ) by {
        if holds_byte(specials, line_start, end, x, off) {
            assert(sp.contains(x));
            let j = choose|j: int| 0 <= j < sp.len() && sp[j] == x;
            if j < k - 1 {
                assert(sp[j].end <= sp[k - 1].start);
            }
            if j > k {
                assert(sp[k].end <= sp[j].start);
            }
        }
    }
}

/// The display of a line whose specials stand apart is the line with its hidden ranges
/// removed and its tokens put in place of what they stand for, and the map says how long it
/// is.
pub proof fn law_display_is_the_shown_line(
    line: Seq<u8>,
    line_start: int,
    specials: Seq<SpecialView>,
)
    requires
        0 <= line_start,
        apart(specials, line_start, line_start + line.len()),
    ensures
        built(line, line_start, specials).display == shown_line(line, line_start, specials),
        built_map(line, line_start, specials).display_len == shown_line(
            line,
            line_start,
            specials,
        ).len(),
{
    let end = line_start + line.len();
    let sp = line_specials(specials, line_start, end);
    let n = sp.len() as int;
    lemma_built_shows(line, line_start, specials, n);
    lemma_gap_is_plain(line, line_start, specials, n, end);
    let b = built_upto(line, line_start, sp, n);
    lemma_shown_plain(line, line_start, specials, b.pos, end);
    if b.pos == end {
        assert(line.subrange(b.pos - line_start, end - line_start) =~= Seq::<u8>::empty());
    }
    assert(built(line, line_start, specials).display =~= shown_line(line, line_start, specials));
}

/// A line with one special shows what is before it, what it shows, and what is after it.
pub proof fn law_one_special(line: Seq<u8>, line_start: int, x: SpecialView)
    requires
        0 <= line_start <= x.start < x.end <= line_start + line.len(),
    ensures
        built(line, line_start, seq![x]).display == line.subrange(0, x.start - line_start) + (
        match x.shown {
            None => seq![],
            Some(token) => token,
        }) + line.subrange(x.end - line_start, line.len() as int),
{
    let end = line_start + line.len();
    let sp = seq![x];
    assert(sp.drop_last() =~= Seq::<SpecialView>::empty());
    assert(line_specials(sp.drop_last(), line_start, end) =~= Seq::<SpecialView>::empty());
    assert(line_specials(sp, line_start, end) =~= sp);
    let zero = built_upto(line, line_start, sp, 0);
    let one = built_upto(line, line_start, sp, 1);
    assert(one == replaced(zero, line, line_start, x));
    assert(built(line, line_start, sp) == copied(one, line, line_start, end));
    assert(built(line, line_start, sp).display =~= line.subrange(0, x.start - line_start) + (
    match x.shown {
        None => seq![],
        Some(token) => token,
    }) + line.subrange(x.end - line_start, line.len() as int));
}

/// A line with two specials shows what is before, between and after them, and what each of
/// them shows.
pub proof fn law_two_specials(line: Seq<u8>, line_start: int, x: SpecialView, y: SpecialView)
    requires
        0 <= line_start <= x.start < x.end <= y.start < y.end <= line_start + line.len(),
    ensures
        built(line, line_start, seq![x, y]).display == line.subrange(0, x.start - line_start) + (
        match x.shown {
            None => seq![],
            Some(token) => token,
        }) + line.subrange(x.end - line_start, y.start - line_start) + (match y.shown {
            None => seq![],
            Some(token) => token,
        }) + line.subrange(y.end - line_start, line.len() as int),
{
    let end = line_start + line.len();
    let sp = seq![x, y];
    assert(sp.drop_last() =~= seq![x]);
    assert(seq![x].drop_last() =~= Seq::<SpecialView>::empty());
    assert(line_specials(seq![x].drop_last(), line_start, end) =~= Seq::<SpecialView>::empty());
    assert(line_specials(seq![x], line_start, end) =~= seq![x]);
    assert(line_specials(sp, line_start, end) =~= sp);
    let zero = built_upto(line, line_start, sp, 0);
    let one = built_upto(line, line_start, sp, 1);
    let two = built_upto(line, line_start, sp, 2);
    assert(one == replaced(zero, line, line_start, x));
    assert(two == replaced(one, line, line_start, y));
    assert(built(line, line_start, sp) == copied(two, line, line_start, end));
    assert(built(line, line_start, sp).display =~= line.subrange(0, x.start - line_start) + (
    match x.shown {
        None => seq![],
        Some(token) => token,
    }) + line.subrange(x.end - line_start, y.start - line_start) + (match y.shown {
        None => seq![],
        Some(token) => token,
    }) + line.subrange(y.end - line_start, line.len() as int));
}

} // verus!
