//! Hand-written syntax-highlight tokenizers for Mermaid diagram source and LaTeX math:
//! small lexical scanners that emit [`HighlightSpan`]s.
//!
//! Byte scanning is UTF-8-safe because every span starts and ends next to an ASCII byte;
//! non-ASCII bytes only ever fall through as plain text or lie inside a comment or a
//! label, so no span can land on a char interior.
use crate::highlight::{capture_id, highlight_id, Capture, HighlightSpan};
use crate::text::{has_at, is_slice, lemma_ascii_boundary, matches_at, push_char, str_eq};
use std::ops::Range;
use vstd::prelude::*;
use vstd::string::*;
use vstd::utf8::*;

verus! {

// ---------------------------------------------------------------------------
// Scanning
// ---------------------------------------------------------------------------

/// A span.
pub open spec fn token(start: int, end: int, c: Capture) -> HighlightSpan {
    HighlightSpan {
        range: Range { start: start as usize, end: end as usize },
        highlight_id: capture_id(c),
    }
}

fn span(start: usize, end: usize, c: Capture) -> (r: HighlightSpan)
    ensures
        r == token(start as int, end as int, c),
{
    HighlightSpan { range: start..end, highlight_id: highlight_id(c) }
}

/// What a run of bytes stops at.
#[derive(Clone, Copy)]
pub enum Stop {
    Newline,
    Quote,
    Bar,
    Brace,
    NoArrow,
    NoNumber,
    NoWord,
    NoLetter,
}

/// Characters that make up flow/sequence/edge operators (`-->`, `-.->`, `==>`, `..>`,
/// `--)`, …). Letters `x`/`o` (arrowheads) are not among them, so that a run never eats an
/// adjacent identifier letter (e.g. the `oo` in `foo-->bar`); nor is `|`, so that an edge
/// label `-->|yes|` keeps the arrow (`-->`) and the label (`|yes|`) as separate tokens.
pub open spec fn is_arrow(c: u8) -> bool {
    c == 0x2d || c == 0x2e || c == 0x3d || c == 0x3c || c == 0x3e || c == 0x7e || c == 0x2a
}

/// An ASCII digit.
pub open spec fn is_digit_byte(c: u8) -> bool {
    0x30 <= c <= 0x39
}

/// An ASCII letter.
pub open spec fn is_letter(c: u8) -> bool {
    0x41 <= c <= 0x5a || 0x61 <= c <= 0x7a
}

impl Stop {
    /// A run stops at byte `c`.
    pub open spec fn at(self, c: u8) -> bool {
        match self {
            Stop::Newline => c == 0x0a,
            Stop::Quote => c == 0x22 || c == 0x0a,
            Stop::Bar => c == 0x7c || c == 0x0a,
            Stop::Brace => c == 0x7d || c == 0x0a,
            Stop::NoArrow => !is_arrow(c),
            Stop::NoNumber => !is_digit_byte(c) && c != 0x2e,
            Stop::NoWord => !is_letter(c) && !is_digit_byte(c) && c != 0x5f,
            Stop::NoLetter => !is_letter(c),
        }
    }

    fn is_at(self, c: u8) -> (r: bool)
        ensures
            r == self.at(c),
    {
        match self {
            Stop::Newline => c == 0x0a,
            Stop::Quote => c == 0x22 || c == 0x0a,
            Stop::Bar => c == 0x7c || c == 0x0a,
            Stop::Brace => c == 0x7d || c == 0x0a,
            Stop::NoArrow => !is_arrow_char(c),
            Stop::NoNumber => !is_ascii_digit(c) && c != 0x2e,
            Stop::NoWord => !is_ascii_letter(c) && !is_ascii_digit(c) && c != 0x5f,
            Stop::NoLetter => !is_ascii_letter(c),
        }
    }
}

fn is_arrow_char(c: u8) -> (r: bool)
    ensures
        r == is_arrow(c),
{
    matches!(c, 0x2d | 0x2e | 0x3d | 0x3c | 0x3e | 0x7e | 0x2a)
}

fn is_ascii_digit(c: u8) -> (r: bool)
    ensures
        r == is_digit_byte(c),
{
    0x30 <= c && c <= 0x39
}

fn is_ascii_letter(c: u8) -> (r: bool)
    ensures
        r == is_letter(c),
{
    (0x41 <= c && c <= 0x5a) || (0x61 <= c && c <= 0x7a)
}

/// Where the run from `i` on stops; the end of the source where it does not.
pub open spec fn run_end(b: Seq<u8>, i: int, stop: Stop) -> int
    decreases b.len() - i,
{
    if i < 0 || i >= b.len() || stop.at(b[i]) {
        i
    } else {
        run_end(b, i + 1, stop)
    }
}

fn scan(b: &[u8], i: usize, stop: Stop) -> (r: usize)
    requires
        i <= b@.len(),
    ensures
        r == run_end(b@, i as int, stop),
        i <= r <= b@.len(),
        r < b@.len() ==> stop.at(b@[r as int]),
        forall|k: int| i <= k < r ==> !stop.at(#[trigger] b@[k]),
{
    let n = b.len();
    let mut k: usize = i;
    while k < n && !stop.is_at(b[k])
        invariant
            n == b@.len(),
            i <= k <= n,
            run_end(b@, i as int, stop) == run_end(b@, k as int, stop),
            forall|j: int| i <= j < k ==> !stop.at(#[trigger] b@[j]),
        decreases n - k,
    {
        k += 1;
    }
    k
}

/// The source can be cut at `i`: it is the end, or next to an ASCII byte.
pub open spec fn ascii_cut(b: Seq<u8>, i: int) -> bool {
    0 <= i <= b.len() && (i == b.len() || b[i] < 0x80 || (i > 0 && b[i - 1] < 0x80))
}

/// Every span holds something of the source and is cut next to ASCII bytes; the spans
/// are in order and apart, and end before `end`.
pub open spec fn spans_fit(spans: Seq<HighlightSpan>, b: Seq<u8>, end: int) -> bool {
    &&& forall|i: int|
        0 <= i < spans.len() ==> {
            let r = (#[trigger] spans[i]).range;
            r.start < r.end <= end && ascii_cut(b, r.start as int) && ascii_cut(b, r.end as int)
        }
    &&& forall|i: int, j: int|
        0 <= i < j < spans.len() ==> (#[trigger] spans[i]).range.end <= (
        #[trigger] spans[j]).range.start
}

/// Spans of a text lie between its characters, in order and apart.
pub open spec fn spans_cut(spans: Seq<HighlightSpan>, b: Seq<u8>) -> bool {
    &&& forall|i: int|
        0 <= i < spans.len() ==> is_slice(
            b,
            (#[trigger] spans[i]).range.start as int,
            spans[i].range.end as int,
        ) && spans[i].range.start < spans[i].range.end
    &&& forall|i: int, j: int|
        0 <= i < j < spans.len() ==> (#[trigger] spans[i]).range.end <= (
        #[trigger] spans[j]).range.start
}

proof fn lemma_ascii_cut(b: Seq<u8>, i: int)
    requires
        valid_utf8(b),
        ascii_cut(b, i),
    ensures
        is_char_boundary(b, i),
{
    if i == b.len() {
        is_char_boundary_start_end_of_seq(b);
    } else if b[i] < 0x80 {
        lemma_ascii_boundary(b, i);
    } else {
        lemma_ascii_boundary(b, i - 1);
    }
}

proof fn lemma_spans_cut(spans: Seq<HighlightSpan>, b: Seq<u8>)
    requires
        valid_utf8(b),
        spans_fit(spans, b, b.len() as int),
    ensures
        spans_cut(spans, b),
{
    assert forall|i: int| 0 <= i < spans.len() implies is_slice(
        b,
        (#[trigger] spans[i]).range.start as int,
        spans[i].range.end as int,
    ) && spans[i].range.start < spans[i].range.end by {
        lemma_ascii_cut(b, spans[i].range.start as int);
        lemma_ascii_cut(b, spans[i].range.end as int);
    }
}

// ---------------------------------------------------------------------------
// Mermaid
// ---------------------------------------------------------------------------

/// A word that names a type of diagram.
pub open spec fn is_diagram_type(w: Seq<char>) -> bool {
    w == "graph"@
        || w == "flowchart"@
        || w == "sequencediagram"@
        || w == "classdiagram"@
        || w == "statediagram"@
        || w == "erdiagram"@
        || w == "gantt"@
        || w == "pie"@
        || w == "journey"@
        || w == "gitgraph"@
        || w == "mindmap"@
        || w == "timeline"@
        || w == "quadrantchart"@
        || w == "requirementdiagram"@
}

/// A word that structures a diagram or leads a statement.
pub open spec fn is_statement(w: Seq<char>) -> bool {
    w == "subgraph"@
        || w == "end"@
        || w == "participant"@
        || w == "actor"@
        || w == "as"@
        || w == "activate"@
        || w == "deactivate"@
        || w == "note"@
        || w == "over"@
        || w == "loop"@
        || w == "alt"@
        || w == "else"@
        || w == "opt"@
        || w == "par"@
        || w == "and"@
        || w == "rect"@
        || w == "break"@
        || w == "critical"@
        || w == "option"@
        || w == "class"@
        || w == "state"@
        || w == "section"@
        || w == "title"@
        || w == "direction"@
        || w == "acctitle"@
        || w == "accdescr"@
}

/// A word of gantt charts.
pub open spec fn is_gantt_word(w: Seq<char>) -> bool {
    w == "dateformat"@
        || w == "axisformat"@
        || w == "excludes"@
        || w == "includes"@
        || w == "todaymarker"@
        || w == "inclusiveenddates"@
        || w == "topaxis"@
        || w == "tickinterval"@
}

/// A directive of flowcharts and git graphs.
pub open spec fn is_directive(w: Seq<char>) -> bool {
    w == "click"@
        || w == "style"@
        || w == "linkstyle"@
        || w == "classdef"@
        || w == "callback"@
        || w == "link"@
        || w == "href"@
        || w == "commit"@
        || w == "branch"@
        || w == "checkout"@
        || w == "merge"@
        || w == "autonumber"@
}

/// A modifier of the keys of entity relationship diagrams.
pub open spec fn is_key_modifier(w: Seq<char>) -> bool {
    w == "pk"@
        || w == "fk"@
        || w == "uk"@
}

/// Diagram-type and structural statement words. They are matched case-insensitively.
pub open spec fn is_keyword(w: Seq<char>) -> bool {
    is_diagram_type(w) || is_statement(w) || is_gantt_word(w) || is_directive(w)
        || is_key_modifier(w)
}

/// A direction of a flowchart.
pub open spec fn is_direction(w: Seq<char>) -> bool {
    w == "tb"@ || w == "td"@ || w == "bt"@ || w == "rl"@ || w == "lr"@
}

fn diagram_type(w: &str) -> (r: bool)
    ensures
        r == is_diagram_type(w@),
{
    str_eq(w, "graph")
        || str_eq(w, "flowchart")
        || str_eq(w, "sequencediagram")
        || str_eq(w, "classdiagram")
        || str_eq(w, "statediagram")
        || str_eq(w, "erdiagram")
        || str_eq(w, "gantt")
        || str_eq(w, "pie")
        || str_eq(w, "journey")
        || str_eq(w, "gitgraph")
        || str_eq(w, "mindmap")
        || str_eq(w, "timeline")
        || str_eq(w, "quadrantchart")
        || str_eq(w, "requirementdiagram")
}

fn statement(w: &str) -> (r: bool)
    ensures
        r == is_statement(w@),
{
    str_eq(w, "subgraph")
        || str_eq(w, "end")
        || str_eq(w, "participant")
        || str_eq(w, "actor")
        || str_eq(w, "as")
        || str_eq(w, "activate")
        || str_eq(w, "deactivate")
        || str_eq(w, "note")
        || str_eq(w, "over")
        || str_eq(w, "loop")
        || str_eq(w, "alt")
        || str_eq(w, "else")
        || str_eq(w, "opt")
        || str_eq(w, "par")
        || str_eq(w, "and")
        || str_eq(w, "rect")
        || str_eq(w, "break")
        || str_eq(w, "critical")
        || str_eq(w, "option")
        || str_eq(w, "class")
        || str_eq(w, "state")
        || str_eq(w, "section")
        || str_eq(w, "title")
        || str_eq(w, "direction")
        || str_eq(w, "acctitle")
        || str_eq(w, "accdescr")
}

fn gantt_word(w: &str) -> (r: bool)
    ensures
        r == is_gantt_word(w@),
{
    str_eq(w, "dateformat")
        || str_eq(w, "axisformat")
        || str_eq(w, "excludes")
        || str_eq(w, "includes")
        || str_eq(w, "todaymarker")
        || str_eq(w, "inclusiveenddates")
        || str_eq(w, "topaxis")
        || str_eq(w, "tickinterval")
}

fn directive(w: &str) -> (r: bool)
    ensures
        r == is_directive(w@),
{
    str_eq(w, "click")
        || str_eq(w, "style")
        || str_eq(w, "linkstyle")
        || str_eq(w, "classdef")
        || str_eq(w, "callback")
        || str_eq(w, "link")
        || str_eq(w, "href")
        || str_eq(w, "commit")
        || str_eq(w, "branch")
        || str_eq(w, "checkout")
        || str_eq(w, "merge")
        || str_eq(w, "autonumber")
}

fn key_modifier(w: &str) -> (r: bool)
    ensures
        r == is_key_modifier(w@),
{
    str_eq(w, "pk")
        || str_eq(w, "fk")
        || str_eq(w, "uk")
}

fn keyword(w: &str) -> (r: bool)
    ensures
        r == is_keyword(w@),
{
    diagram_type(w) || statement(w) || gantt_word(w) || directive(w) || key_modifier(w)
}

fn direction(w: &str) -> (r: bool)
    ensures
        r == is_direction(w@),
{
    str_eq(w, "tb") || str_eq(w, "td") || str_eq(w, "bt") || str_eq(w, "rl") || str_eq(w, "lr")
}

/// An ASCII letter in lower case.
pub open spec fn lower(c: u8) -> u8 {
    if 0x41 <= c <= 0x5a {
        (c + 0x20) as u8
    } else {
        c
    }
}

/// The ASCII word in `s..e`, in lower case.
pub open spec fn word_text(b: Seq<u8>, s: int, e: int) -> Seq<char> {
    Seq::new((e - s) as nat, |k: int| lower(b[s + k]) as char)
}

fn word(b: &[u8], s: usize, e: usize) -> (r: String)
    requires
        s <= e <= b@.len(),
    ensures
        r@ == word_text(b@, s as int, e as int),
{
    let mut out = String::new();
    let mut k: usize = s;
    while k < e
        invariant
            s <= k <= e <= b@.len(),
            out@ == word_text(b@, s as int, k as int),
        decreases e - k,
    {
        let c = b[k];
        let l: u8 = if 0x41 <= c && c <= 0x5a {
            c + 0x20
        } else {
            c
        };
        push_char(&mut out, l as char);
        k += 1;
        assert(out@ =~= word_text(b@, s as int, k as int));
    }
    out
}

/// What a scanner reads at one place: its spans, and where it goes on.
pub struct Step {
    pub spans: Seq<HighlightSpan>,
    pub end: int,
}

/// A run of arrow characters forms a connector: it is at least two long, with a `-`, a
/// `=` or a `>` in it.
pub open spec fn is_connector(b: Seq<u8>, s: int, e: int) -> bool {
    e - s >= 2 && exists|k: int| s <= k < e && #[trigger] draws(b[k])
}

/// The byte draws a line or a head of an arrow.
pub open spec fn draws(c: u8) -> bool {
    c == 0x2d || c == 0x3d || c == 0x3e
}

/// What the Mermaid scanner reads at `i`: comments (`%%`), quoted strings, edge labels,
/// connectors, numbers, and words that are directions or keywords. Everything else is
/// plain.
pub open spec fn mermaid_step(b: Seq<u8>, i: int) -> Step {
    let c = b[i];
    if c == 0x25 && i + 1 < b.len() && b[i + 1] == 0x25 {
        let e = run_end(b, i, Stop::Newline);
        Step { spans: seq![token(i, e, Capture::Comment)], end: e }
    } else if c == 0x22 {
        let j = run_end(b, i + 1, Stop::Quote);
        let e = if j < b.len() && b[j] == 0x22 {
            j + 1
        } else {
            j
        };
        Step { spans: seq![token(i, e, Capture::String)], end: e }
    } else if c == 0x7c {
        let j = run_end(b, i + 1, Stop::Bar);
        if j < b.len() && b[j] == 0x7c && j > i + 1 {
            Step { spans: seq![token(i, j + 1, Capture::String)], end: j + 1 }
        } else {
            Step { spans: seq![], end: i + 1 }
        }
    } else if is_arrow(c) {
        let e = run_end(b, i, Stop::NoArrow);
        Step {
            spans: if is_connector(b, i, e) {
                seq![token(i, e, Capture::Operator)]
            } else {
                seq![]
            },
            end: e,
        }
    } else if is_digit_byte(c) {
        let e = run_end(b, i, Stop::NoNumber);
        Step { spans: seq![token(i, e, Capture::Number)], end: e }
    } else if is_letter(c) || c == 0x5f {
        let e = run_end(b, i, Stop::NoWord);
        let w = word_text(b, i, e);
        Step {
            spans: if is_direction(w) {
                seq![token(i, e, Capture::Constant)]
            } else if is_keyword(w) {
                seq![token(i, e, Capture::Keyword)]
            } else {
                seq![]
            },
            end: e,
        }
    } else {
        Step { spans: seq![], end: i + 1 }
    }
}

/// The spans of Mermaid source from `i` on.
pub open spec fn mermaid_spans(b: Seq<u8>, i: int) -> Seq<HighlightSpan>
    decreases b.len() - i,
{
    if i < 0 || i >= b.len() || !(i < mermaid_step(b, i).end <= b.len()) {
        seq![]
    } else {
        mermaid_step(b, i).spans + mermaid_spans(b, mermaid_step(b, i).end)
    }
}

fn connector(b: &[u8], s: usize, e: usize) -> (r: bool)
    requires
        s <= e <= b@.len(),
    ensures
        r == is_connector(b@, s as int, e as int),
{
    if e - s < 2 {
        return false;
    }
    let mut k: usize = s;
    while k < e
        invariant
            s <= k <= e <= b@.len(),
            forall|j: int| s <= j < k ==> !draws(#[trigger] b@[j]),
        decreases e - k,
    {
        if matches!(b[k], 0x2d | 0x3d | 0x3e) {
            assert(draws(b@[k as int]));
            return e - s >= 2;
        }
        k += 1;
    }
    false
}

/// Puts a span behind the others.
fn push_span(spans: &mut Vec<HighlightSpan>, s: HighlightSpan, b: &[u8], at: usize)
    requires
        spans_fit(old(spans)@, b@, at as int),
        at <= s.range.start < s.range.end,
        ascii_cut(b@, s.range.start as int),
        ascii_cut(b@, s.range.end as int),
    ensures
        final(spans)@ == old(spans)@.push(s),
        spans_fit(final(spans)@, b@, s.range.end as int),
{
    spans.push(s);
}

/// Reads one token of Mermaid source.
fn mermaid_token(b: &[u8], i: usize, spans: &mut Vec<HighlightSpan>) -> (end: usize)
    requires
        i < b@.len(),
        spans_fit(old(spans)@, b@, i as int),
    ensures
        final(spans)@ == old(spans)@ + mermaid_step(b@, i as int).spans,
        end == mermaid_step(b@, i as int).end,
        i < end <= b@.len(),
        spans_fit(final(spans)@, b@, end as int),
{
    let ghost before = spans@;
    let n = b.len();
    let c = b[i];
    // `%%` comment to end of line — also covers `%%{ init: … }%%` directive lines.
    if c == 0x25 && i + 1 < n && b[i + 1] == 0x25 {
        let e = scan(b, i, Stop::Newline);
        assert(e > i) by {
            if e == i {
                assert(Stop::Newline.at(b@[i as int]));
            }
        }
        push_span(spans, span(i, e, Capture::Comment), b, i);
        assert(spans@ =~= before + mermaid_step(b@, i as int).spans);
        return e;
    }
    // Quoted string label.
    if c == 0x22 {
        let j = scan(b, i + 1, Stop::Quote);
        let e = if j < n && b[j] == 0x22 {
            j + 1
        } else {
            j
        };
        push_span(spans, span(i, e, Capture::String), b, i);
        assert(spans@ =~= before + mermaid_step(b@, i as int).spans);
        return e;
    }
    // Edge label `|text|` (e.g. `A -->|yes| B`): the label reads as a string, distinct
    // from the arrow before it. A bare `|` (or ER `||` cardinality) is plain punctuation.
    if c == 0x7c {
        let j = scan(b, i + 1, Stop::Bar);
        if j < n && b[j] == 0x7c && j > i + 1 {
            push_span(spans, span(i, j + 1, Capture::String), b, i);
            assert(spans@ =~= before + mermaid_step(b@, i as int).spans);
            return j + 1;
        }
        assert(spans@ =~= before + mermaid_step(b@, i as int).spans);
        return i + 1;
    }
    // Edge/arrow operator: a run of arrow chars that actually forms a connector.
    if is_arrow_char(c) {
        let e = scan(b, i, Stop::NoArrow);
        assert(e > i);
        if connector(b, i, e) {
            assert(!Stop::NoArrow.at(b@[e - 1]));
            push_span(spans, span(i, e, Capture::Operator), b, i);
        }
        assert(spans@ =~= before + mermaid_step(b@, i as int).spans);
        return e;
    }
    // Number (pie values, gantt data).
    if is_ascii_digit(c) {
        let e = scan(b, i, Stop::NoNumber);
        assert(e > i);
        assert(!Stop::NoNumber.at(b@[e - 1]));
        push_span(spans, span(i, e, Capture::Number), b, i);
        assert(spans@ =~= before + mermaid_step(b@, i as int).spans);
        return e;
    }
    // Word: keyword / direction / plain identifier.
    if is_ascii_letter(c) || c == 0x5f {
        let e = scan(b, i, Stop::NoWord);
        assert(e > i);
        assert(!Stop::NoWord.at(b@[e - 1]));
        let w = word(b, i, e);
        if direction(w.as_str()) {
            push_span(spans, span(i, e, Capture::Constant), b, i);
        } else if keyword(w.as_str()) {
            push_span(spans, span(i, e, Capture::Keyword), b, i);
        }
        assert(spans@ =~= before + mermaid_step(b@, i as int).spans);
        return e;
    }
    assert(spans@ =~= before + mermaid_step(b@, i as int).spans);
    i + 1
}

/// Tokenize Mermaid source. Colors comments (`%%`), quoted strings, edge/arrow operators,
/// diagram/structural keywords, directions, and numbers; identifiers, node text, brackets,
/// and label pipes fall through as plain foreground. Best-effort — a keyword word inside a
/// bracketed label may color, which is an acceptable cosmetic edge for edit-time source
/// reveal.
pub fn highlight_mermaid(src: &str) -> (r: Vec<HighlightSpan>)
    ensures
        r@ == mermaid_spans(src.spec_bytes(), 0),
        spans_cut(r@, src.spec_bytes()),
{
    let b = src.as_bytes();
    let n = b.len();
    let mut spans: Vec<HighlightSpan> = Vec::new();
    let mut i: usize = 0;
    assert(spans@ + mermaid_spans(b@, 0) =~= mermaid_spans(b@, 0));
    while i < n
        invariant
            n == b@.len(),
            i <= n,
            spans_fit(spans@, b@, i as int),
            spans@ + mermaid_spans(b@, i as int) == mermaid_spans(b@, 0),
        decreases n - i,
    {
        let ghost before = spans@;
        let e = mermaid_token(b, i, &mut spans);
        assert(spans@ + mermaid_spans(b@, e as int) =~= before + mermaid_spans(b@, i as int));
        i = e;
    }
    assert(spans@ + Seq::<HighlightSpan>::empty() =~= spans@);
    proof {
        encode_utf8_valid_utf8(src@);
        lemma_spans_cut(spans@, b@);
    }
    spans
}

proof fn lemma_run_end(b: Seq<u8>, i: int, stop: Stop)
    requires
        0 <= i <= b.len(),
    ensures
        i <= run_end(b, i, stop) <= b.len(),
        run_end(b, i, stop) < b.len() ==> stop.at(b[run_end(b, i, stop)]),
        forall|k: int| i <= k < run_end(b, i, stop) ==> !stop.at(#[trigger] b[k]),
    decreases b.len() - i,
{
    if i < b.len() && !stop.at(b[i]) {
        lemma_run_end(b, i + 1, stop);
    }
}

/// No span of Mermaid source crosses a line break.
pub proof fn law_mermaid_spans_stay_on_their_line(b: Seq<u8>, from: int, i: int)
    requires
        0 <= from,
        b.len() <= usize::MAX,
        0 <= i < mermaid_spans(b, from).len(),
    ensures
        mermaid_spans(b, from)[i].range.end <= b.len(),
        forall|k: int|
            mermaid_spans(b, from)[i].range.start <= k < mermaid_spans(b, from)[i].range.end
                ==> #[trigger] b[k] != 0x0a,
    decreases b.len() - from,
{
    let step = mermaid_step(b, from);
    lemma_run_end(b, from, Stop::Newline);
    lemma_run_end(b, from + 1, Stop::Quote);
    lemma_run_end(b, from + 1, Stop::Bar);
    lemma_run_end(b, from, Stop::NoArrow);
    lemma_run_end(b, from, Stop::NoNumber);
    lemma_run_end(b, from, Stop::NoWord);
    if i < step.spans.len() {
        assert(mermaid_spans(b, from)[i] == step.spans[i]);
    } else {
        law_mermaid_spans_stay_on_their_line(b, step.end, i - step.spans.len());
    }
}

// ---------------------------------------------------------------------------
// LaTeX (math mode)
// ---------------------------------------------------------------------------

/// The byte is a sub/superscript sign or a math operator: one of `^ _ + - = < > / *`.
pub open spec fn is_math_operator(c: u8) -> bool {
    c == 0x5e || c == 0x5f || c == 0x2b || c == 0x2d || c == 0x3d || c == 0x3c || c == 0x3e || c
        == 0x2f || c == 0x2a
}

/// The control word in `s..e` opens or closes an environment.
pub open spec fn is_environment(b: Seq<u8>, s: int, e: int) -> bool {
    b.subrange(s, e) == encode_utf8("begin"@) || b.subrange(s, e) == encode_utf8("end"@)
}

/// What the LaTeX scanner reads at `i`: comments (`%`), control words (`\frac`), `\begin`
/// and `\end` with the name of the environment, control symbols (`\\`, `\{`, `\,`),
/// operators and numbers. Everything else is plain, and so is a `\` that stands before a
/// non-ASCII character or at the end.
pub open spec fn latex_step(b: Seq<u8>, i: int) -> Step {
    let c = b[i];
    if c == 0x25 {
        let e = run_end(b, i, Stop::Newline);
        Step { spans: seq![token(i, e, Capture::Comment)], end: e }
    } else if c == 0x5c {
        if i + 1 < b.len() && is_letter(b[i + 1]) {
            let e = run_end(b, i + 1, Stop::NoLetter);
            if is_environment(b, i + 1, e) {
                if e < b.len() && b[e] == 0x7b {
                    let j = run_end(b, e + 1, Stop::Brace);
                    Step {
                        spans: seq![token(i, e, Capture::Keyword)] + (if e + 1 < j {
                            seq![token(e + 1, j, Capture::Type)]
                        } else {
                            seq![]
                        }),
                        end: j,
                    }
                } else {
                    Step { spans: seq![token(i, e, Capture::Keyword)], end: e }
                }
            } else {
                Step { spans: seq![token(i, e, Capture::Function)], end: e }
            }
        } else if i + 1 < b.len() && b[i + 1] < 0x80 {
            Step { spans: seq![token(i, i + 2, Capture::PunctuationSpecial)], end: i + 2 }
        } else {
            Step { spans: seq![], end: i + 1 }
        }
    } else if is_math_operator(c) {
        Step { spans: seq![token(i, i + 1, Capture::Operator)], end: i + 1 }
    } else if is_digit_byte(c) {
        let e = run_end(b, i, Stop::NoNumber);
        Step { spans: seq![token(i, e, Capture::Number)], end: e }
    } else {
        Step { spans: seq![], end: i + 1 }
    }
}

/// The spans of LaTeX source from `i` on.
pub open spec fn latex_spans(b: Seq<u8>, i: int) -> Seq<HighlightSpan>
    decreases b.len() - i,
{
    if i < 0 || i >= b.len() || !(i < latex_step(b, i).end <= b.len()) {
        seq![]
    } else {
        latex_step(b, i).spans + latex_spans(b, latex_step(b, i).end)
    }
}

fn environment(b: &[u8], s: usize, e: usize) -> (r: bool)
    requires
        s <= e <= b@.len(),
    ensures
        r == is_environment(b@, s as int, e as int),
{
    let begin = "begin".as_bytes();
    let end = "end".as_bytes();
    assert(matches_at(b@, begin@, s as int) && e - s == begin@.len() ==> b@.subrange(
        s as int,
        e as int,
    ) =~= begin@);
    assert(matches_at(b@, end@, s as int) && e - s == end@.len() ==> b@.subrange(
        s as int,
        e as int,
    ) =~= end@);
    (e - s == begin.len() && has_at(b, begin, s)) || (e - s == end.len() && has_at(b, end, s))
}

/// Reads one control sequence of LaTeX source.
fn latex_control(b: &[u8], i: usize, spans: &mut Vec<HighlightSpan>) -> (next: usize)
    requires
        i < b@.len(),
        b@[i as int] == 0x5c,
        spans_fit(old(spans)@, b@, i as int),
    ensures
        final(spans)@ == old(spans)@ + latex_step(b@, i as int).spans,
        next == latex_step(b@, i as int).end,
        i < next <= b@.len(),
        spans_fit(final(spans)@, b@, next as int),
{
    let ghost before = spans@;
    let n = b.len();
    if i + 1 < n && is_ascii_letter(b[i + 1]) {
        let e = scan(b, i + 1, Stop::NoLetter);
        assert(e > i + 1);
        assert(!Stop::NoLetter.at(b@[e - 1]));
        if !environment(b, i + 1, e) {
            push_span(spans, span(i, e, Capture::Function), b, i);
            assert(spans@ =~= before + latex_step(b@, i as int).spans);
            return e;
        }
        push_span(spans, span(i, e, Capture::Keyword), b, i);
        // The environment name in the following `{…}` is a name role, not text.
        if e < n && b[e] == 0x7b {
            let j = scan(b, e + 1, Stop::Brace);
            if e + 1 < j {
                push_span(spans, span(e + 1, j, Capture::Type), b, e);
            }
            assert(spans@ =~= before + latex_step(b@, i as int).spans);
            return j;
        }
        assert(spans@ =~= before + latex_step(b@, i as int).spans);
        return e;
    }
    if i + 1 < n && b[i + 1] < 0x80 {
        // control symbol: `\\`, `\{`, `\,`, `\;`, …
        push_span(spans, span(i, i + 2, Capture::PunctuationSpecial), b, i);
        assert(spans@ =~= before + latex_step(b@, i as int).spans);
        return i + 2;
    }
    assert(spans@ =~= before + latex_step(b@, i as int).spans);
    i + 1
}

/// Reads one token of LaTeX source.
fn latex_token(b: &[u8], i: usize, spans: &mut Vec<HighlightSpan>) -> (next: usize)
    requires
        i < b@.len(),
        spans_fit(old(spans)@, b@, i as int),
    ensures
        final(spans)@ == old(spans)@ + latex_step(b@, i as int).spans,
        next == latex_step(b@, i as int).end,
        i < next <= b@.len(),
        spans_fit(final(spans)@, b@, next as int),
{
    let ghost before = spans@;
    let c = b[i];
    // `%` comment to end of line (an escaped `\%` is read as a control symbol).
    if c == 0x25 {
        let e = scan(b, i, Stop::Newline);
        assert(e > i) by {
            if e == i {
                assert(Stop::Newline.at(b@[i as int]));
            }
        }
        push_span(spans, span(i, e, Capture::Comment), b, i);
        assert(spans@ =~= before + latex_step(b@, i as int).spans);
        return e;
    }
    if c == 0x5c {
        return latex_control(b, i, spans);
    }
    // Sub/superscript + binary math operators.
    if matches!(c, 0x5e | 0x5f | 0x2b | 0x2d | 0x3d | 0x3c | 0x3e | 0x2f | 0x2a) {
        push_span(spans, span(i, i + 1, Capture::Operator), b, i);
        assert(spans@ =~= before + latex_step(b@, i as int).spans);
        return i + 1;
    }
    // Number.
    if is_ascii_digit(c) {
        let e = scan(b, i, Stop::NoNumber);
        assert(e > i);
        assert(!Stop::NoNumber.at(b@[e - 1]));
        push_span(spans, span(i, e, Capture::Number), b, i);
        assert(spans@ =~= before + latex_step(b@, i as int).spans);
        return e;
    }
    assert(spans@ =~= before + latex_step(b@, i as int).spans);
    i + 1
}

/// Tokenize LaTeX (math) source. Control words (`\frac`, `\alpha`, `\int`) are functions;
/// `\begin`/`\end` are keywords with the environment name (`matrix`) a type; control
/// symbols (`\\`, `\{`, `\,`) are special punctuation; sub/superscript `^`/`_` and the math
/// operators `+ - = < > / *` are operators; then numbers and `%` comments. Braces and
/// letters fall through as plain foreground.
pub fn highlight_latex(src: &str) -> (r: Vec<HighlightSpan>)
    ensures
        r@ == latex_spans(src.spec_bytes(), 0),
        spans_cut(r@, src.spec_bytes()),
{
    let b = src.as_bytes();
    let n = b.len();
    let mut spans: Vec<HighlightSpan> = Vec::new();
    let mut i: usize = 0;
    assert(spans@ + latex_spans(b@, 0) =~= latex_spans(b@, 0));
    while i < n
        invariant
            n == b@.len(),
            i <= n,
            spans_fit(spans@, b@, i as int),
            spans@ + latex_spans(b@, i as int) == latex_spans(b@, 0),
        decreases n - i,
    {
        let ghost before = spans@;
        let e = latex_token(b, i, &mut spans);
        assert(spans@ + latex_spans(b@, e as int) =~= before + latex_spans(b@, i as int));
        i = e;
    }
    assert(spans@ + Seq::<HighlightSpan>::empty() =~= spans@);
    proof {
        encode_utf8_valid_utf8(src@);
        lemma_spans_cut(spans@, b@);
    }
    spans
}

// ---------------------------------------------------------------------------
// What the scanners read
// ---------------------------------------------------------------------------

proof fn lemma_run_end_is(b: Seq<u8>, i: int, e: int, stop: Stop)
    requires
        0 <= i <= e <= b.len(),
        forall|k: int| i <= k < e ==> !stop.at(#[trigger] b[k]),
        e < b.len() ==> stop.at(b[e]),
    ensures
        run_end(b, i, stop) == e,
    decreases e - i,
{
    if i < e {
        assert(!stop.at(b[i]));
        lemma_run_end_is(b, i + 1, e, stop);
    }
}

/// The span of the bytes `s..e` in one of the categories.
pub open spec fn is_span(h: HighlightSpan, s: int, e: int, c: Capture) -> bool {
    h.range.start == s && h.range.end == e && h.highlight_id == capture_id(c)
}

/// The bytes `s..e` are letters, and none follows.
pub open spec fn are_letters(b: Seq<u8>, s: int, e: int) -> bool {
    &&& 0 <= s < e <= b.len()
    &&& forall|k: int|
        s <= k < e ==> 65 <= #[trigger] b[k] <= 90 || 97 <= b[k] <= 122
    &&& e < b.len() ==> !(65 <= b[e] <= 90 || 97 <= b[e] <= 122)
}

/// The bytes `s..e` hold no line break, and one follows or nothing does.
pub open spec fn goes_to_line_end(b: Seq<u8>, s: int, e: int) -> bool {
    &&& 0 <= s < e <= b.len()
    &&& forall|k: int| s <= k < e ==> #[trigger] b[k] != 10
    &&& e < b.len() ==> b[e] == 10
}

/// The bytes `s..e` start with a digit and are digits and dots, and neither follows.
pub open spec fn is_a_number(b: Seq<u8>, s: int, e: int) -> bool {
    &&& 0 <= s < e <= b.len()
    &&& 48 <= b[s] <= 57
    &&& forall|k: int| s <= k < e ==> 48 <= #[trigger] b[k] <= 57 || b[k] == 46
    &&& e < b.len() ==> !(48 <= b[e] <= 57) && b[e] != 46
}

proof fn lemma_begin_end()
    ensures
        encode_utf8("begin"@) == seq![98u8, 101u8, 103u8, 105u8, 110u8],
        encode_utf8("end"@) == seq![101u8, 110u8, 100u8],
{
    reveal_strlit("begin");
    reveal_strlit("end");
    assert(is_ascii_chars("begin"@));
    assert(is_ascii_chars("end"@));
    is_ascii_chars_encode_utf8("begin"@);
    is_ascii_chars_encode_utf8("end"@);
    assert("begin"@[0] == 'b' && "begin"@[1] == 'e' && "begin"@[2] == 'g' && "begin"@[3] == 'i'
        && "begin"@[4] == 'n');
    assert("end"@[0] == 'e' && "end"@[1] == 'n' && "end"@[2] == 'd');
    assert(encode_utf8("begin"@) =~= seq![98u8, 101u8, 103u8, 105u8, 110u8]);
    assert(encode_utf8("end"@) =~= seq![101u8, 110u8, 100u8]);
}

proof fn lemma_latex_letters(b: Seq<u8>, i: int, e: int)
    requires
        0 <= i,
        b.len() <= usize::MAX,
        i < b.len(),
        b[i] == 92,
        are_letters(b, i + 1, e),
    ensures
        run_end(b, i + 1, Stop::NoLetter) == e,
        is_letter(b[i + 1]),
{
    assert forall|k: int| i + 1 <= k < e implies !Stop::NoLetter.at(#[trigger] b[k]) by {}
    lemma_run_end_is(b, i + 1, e, Stop::NoLetter);
}

/// A backslash and the letters `begin` or `end` are a keyword. Where a name in braces
/// follows, the name is a type, and reading goes on behind it.
pub proof fn law_latex_environments(b: Seq<u8>, i: int, e: int, j: int)
    requires
        0 <= i < b.len() <= usize::MAX,
        b[i] == 92,
        are_letters(b, i + 1, e),
        (e == i + 4 && b[i + 1] == 101 && b[i + 2] == 110 && b[i + 3] == 100) || (e == i + 6
            && b[i + 1] == 98 && b[i + 2] == 101 && b[i + 3] == 103 && b[i + 4] == 105 && b[i + 5]
            == 110),
    ensures
        latex_spans(b, i).len() > 0,
        is_span(latex_spans(b, i)[0], i, e, Capture::Keyword),
        e == b.len() || b[e] != 123 ==> latex_spans(b, i) == seq![latex_spans(b, i)[0]]
            + latex_spans(b, e),
        e < j <= b.len() && b[e] == 123 && (forall|k: int|
            e < k < j ==> #[trigger] b[k] != 125 && b[k] != 10) && (j == b.len() || b[j] == 125
            || b[j] == 10) && e + 1 < j ==> latex_spans(b, i).len() >= 2 && is_span(
            latex_spans(b, i)[1],
            e + 1,
            j,
            Capture::Type,
        ) && latex_spans(b, i) == seq![latex_spans(b, i)[0], latex_spans(b, i)[1]] + latex_spans(
            b,
            j,
        ),
{
    lemma_begin_end();
    lemma_latex_letters(b, i, e);
    let w = b.subrange(i + 1, e);
    if e == i + 4 {
        assert(w =~= seq![101u8, 110u8, 100u8]);
    } else {
        assert(w =~= seq![98u8, 101u8, 103u8, 105u8, 110u8]);
    }
    assert(is_environment(b, i + 1, e));
    let step = latex_step(b, i);
    if e < b.len() && b[e] == 123 {
        lemma_run_end(b, e + 1, Stop::Brace);
        let end = run_end(b, e + 1, Stop::Brace);
        assert(i < step.end <= b.len());
        assert(step.spans[0] == token(i, e, Capture::Keyword));
        assert(latex_spans(b, i)[0] == step.spans[0]);
        if e < j <= b.len() && (forall|k: int|
            e < k < j ==> #[trigger] b[k] != 125 && b[k] != 10) && (j == b.len() || b[j] == 125
            || b[j] == 10) && e + 1 < j {
            assert forall|k: int| e + 1 <= k < j implies !Stop::Brace.at(#[trigger] b[k]) by {}
            lemma_run_end_is(b, e + 1, j, Stop::Brace);
            assert(step.spans =~= seq![
                token(i, e, Capture::Keyword),
                token(e + 1, j, Capture::Type),
            ]);
            assert(latex_spans(b, i)[1] == step.spans[1]);
        }
    } else {
        assert(step.spans =~= seq![token(i, e, Capture::Keyword)]);
        assert(latex_spans(b, i)[0] == step.spans[0]);
    }
}

/// A backslash and any other letters are a function.
pub proof fn law_latex_control_words(b: Seq<u8>, i: int, e: int)
    requires
        0 <= i < b.len() <= usize::MAX,
        b[i] == 92,
        are_letters(b, i + 1, e),
        !(e == i + 4 && b[i + 1] == 101 && b[i + 2] == 110 && b[i + 3] == 100),
        !(e == i + 6 && b[i + 1] == 98 && b[i + 2] == 101 && b[i + 3] == 103 && b[i + 4] == 105
            && b[i + 5] == 110),
    ensures
        latex_spans(b, i).len() > 0,
        is_span(latex_spans(b, i)[0], i, e, Capture::Function),
        latex_spans(b, i) == seq![latex_spans(b, i)[0]] + latex_spans(b, e),
{
    lemma_begin_end();
    lemma_latex_letters(b, i, e);
    let w = b.subrange(i + 1, e);
    if is_environment(b, i + 1, e) {
        if w == seq![101u8, 110u8, 100u8] {
            assert(w.len() == 3 && w[0] == 101 && w[1] == 110 && w[2] == 100);
        } else {
            assert(w == seq![98u8, 101u8, 103u8, 105u8, 110u8]);
            assert(w.len() == 5 && w[0] == 98 && w[1] == 101 && w[2] == 103 && w[3] == 105 && w[4]
                == 110);
        }
        assert(false);
    }
    let step = latex_step(b, i);
    assert(step.spans =~= seq![token(i, e, Capture::Function)]);
    assert(latex_spans(b, i)[0] == step.spans[0]);
}

/// The other tokens of LaTeX: comments go from `%` to the end of the line; a backslash and an
/// ASCII character that is no letter are special punctuation; `^ _ + - = < > / *` are
/// operators; digits and dots that start with a digit are numbers. Everything else is plain,
/// and so is a backslash before a character that is not ASCII.
pub proof fn law_latex_tokens(b: Seq<u8>, i: int, e: int)
    requires
        0 <= i < e <= b.len() <= usize::MAX,
    ensures
        ({
            let c = b[i];
            let r = latex_spans(b, i);
            let operator = c == 94 || c == 95 || c == 43 || c == 45 || c == 61 || c == 60 || c == 62
                || c == 47 || c == 42;
            let letter = i + 1 < b.len() && (65 <= b[i + 1] <= 90 || 97 <= b[i + 1] <= 122);
            &&& c == 37 && goes_to_line_end(b, i, e) ==> r.len() > 0 && is_span(
                r[0],
                i,
                e,
                Capture::Comment,
            ) && r == seq![r[0]] + latex_spans(b, e)
            &&& c == 92 && i + 1 < b.len() && b[i + 1] < 128 && !letter ==> r.len() > 0 && is_span(
                r[0],
                i,
                i + 2,
                Capture::PunctuationSpecial,
            ) && r == seq![r[0]] + latex_spans(b, i + 2)
            &&& c == 92 && (i + 1 == b.len() || b[i + 1] >= 128) ==> r == latex_spans(b, i + 1)
            &&& operator ==> r.len() > 0 && is_span(r[0], i, i + 1, Capture::Operator) && r
                == seq![r[0]] + latex_spans(b, i + 1)
            &&& is_a_number(b, i, e) ==> r.len() > 0 && is_span(r[0], i, e, Capture::Number) && r
                == seq![r[0]] + latex_spans(b, e)
            &&& c != 37 && c != 92 && !operator && !(48 <= c <= 57) ==> r == latex_spans(b, i + 1)
        }),
{
    let c = b[i];
    let step = latex_step(b, i);
    if c == 37 && goes_to_line_end(b, i, e) {
        assert forall|k: int| i <= k < e implies !Stop::Newline.at(#[trigger] b[k]) by {}
        lemma_run_end_is(b, i, e, Stop::Newline);
        assert(latex_spans(b, i)[0] == step.spans[0]);
    } else if is_a_number(b, i, e) {
        assert forall|k: int| i <= k < e implies !Stop::NoNumber.at(#[trigger] b[k]) by {}
        lemma_run_end_is(b, i, e, Stop::NoNumber);
        assert(latex_spans(b, i)[0] == step.spans[0]);
    } else if c == 92 && i + 1 < b.len() && b[i + 1] < 128 && !is_letter(b[i + 1]) {
        assert(latex_spans(b, i)[0] == step.spans[0]);
    } else if is_math_operator(c) {
        assert(latex_spans(b, i)[0] == step.spans[0]);
    } else if c != 37 && c != 92 && !(48 <= c <= 57) || (c == 92 && (i + 1 == b.len() || b[i + 1]
        >= 128)) {
        assert(latex_spans(b, i) =~= latex_spans(b, i + 1));
    }
}

/// The byte can be part of an arrow: one of `- . = < > ~ *`.
pub open spec fn arrow_byte(c: u8) -> bool {
    c == 45 || c == 46 || c == 61 || c == 60 || c == 62 || c == 126 || c == 42
}

/// The bytes `s..e` can be part of an arrow, and the next one cannot.
pub open spec fn are_arrow_bytes(b: Seq<u8>, s: int, e: int) -> bool {
    &&& 0 <= s < e <= b.len()
    &&& forall|k: int| s <= k < e ==> arrow_byte(#[trigger] b[k])
    &&& e < b.len() ==> !arrow_byte(b[e])
}

/// The tokens of Mermaid other than words: comments go from `%%` to the end of the line;
/// strings from a quote to the next one on the line, or to the end of the line; a label is
/// what is between two bars, if anything is; two or more arrow bytes are an operator where
/// they hold a `-`, a `=` or a `>`; digits and dots that start with a digit are numbers.
pub proof fn law_mermaid_tokens(b: Seq<u8>, i: int, e: int)
    requires
        0 <= i < e <= b.len() <= usize::MAX,
    ensures
        ({
            let c = b[i];
            let r = mermaid_spans(b, i);
            let comment = c == 37 && i + 1 < b.len() && b[i + 1] == 37;
            let within = |x: u8| forall|k: int| i < k < e - 1 ==> #[trigger] b[k] != x && b[k] != 10;
            let one = |k: Capture| r.len() > 0 && is_span(r[0], i, e, k) && r == seq![r[0]]
                + mermaid_spans(b, e);
            &&& comment && goes_to_line_end(b, i, e) ==> one(Capture::Comment)
            &&& c == 34 && i + 1 < e && b[e - 1] == 34 && within(34) ==> one(Capture::String)
            &&& c == 34 && (forall|k: int| i < k < e ==> #[trigger] b[k] != 34) && goes_to_line_end(
                b,
                i,
                e,
            ) ==> one(Capture::String)
            &&& c == 124 && i + 2 < e && b[e - 1] == 124 && within(124) ==> one(Capture::String)
            &&& c == 124 && i + 1 < b.len() && (b[i + 1] == 124 || b[i + 1] == 10) ==> r
                == mermaid_spans(b, i + 1)
            &&& are_arrow_bytes(b, i, e) && e >= i + 2 && (exists|k: int|
                i <= k < e && (#[trigger] b[k] == 45 || b[k] == 61 || b[k] == 62)) ==> one(
                Capture::Operator,
            )
            &&& are_arrow_bytes(b, i, e) && (e == i + 1 || forall|k: int|
                i <= k < e ==> #[trigger] b[k] != 45 && b[k] != 61 && b[k] != 62) ==> r
                == mermaid_spans(b, e)
            &&& is_a_number(b, i, e) ==> one(Capture::Number)
            &&& c >= 128 || c == 32 || c == 10 || c == 91 || c == 93 || c == 40 || c == 41 || c
                == 123 || c == 125 || c == 58 || c == 59 || c == 44 ==> r == mermaid_spans(b, i + 1)
        }),
{
    let c = b[i];
    let step = mermaid_step(b, i);
    let r = mermaid_spans(b, i);
    if c == 37 && i + 1 < b.len() && b[i + 1] == 37 {
        if goes_to_line_end(b, i, e) {
            assert forall|k: int| i <= k < e implies !Stop::Newline.at(#[trigger] b[k]) by {}
            lemma_run_end_is(b, i, e, Stop::Newline);
            assert(r[0] == step.spans[0]);
        }
    } else if c == 34 {
        if i + 1 < e && b[e - 1] == 34 && (forall|k: int|
            i < k < e - 1 ==> #[trigger] b[k] != 34 && b[k] != 10) {
            assert forall|k: int| i + 1 <= k < e - 1 implies !Stop::Quote.at(#[trigger] b[k]) by {}
            lemma_run_end_is(b, i + 1, e - 1, Stop::Quote);
            assert(r[0] == step.spans[0]);
        }
        if (forall|k: int| i < k < e ==> #[trigger] b[k] != 34) && goes_to_line_end(b, i, e) {
            assert forall|k: int| i + 1 <= k < e implies !Stop::Quote.at(#[trigger] b[k]) by {}
            lemma_run_end_is(b, i + 1, e, Stop::Quote);
            assert(r[0] == step.spans[0]);
        }
    } else if c == 124 {
        if i + 2 < e && b[e - 1] == 124 && (forall|k: int|
            i < k < e - 1 ==> #[trigger] b[k] != 124 && b[k] != 10) {
            assert forall|k: int| i + 1 <= k < e - 1 implies !Stop::Bar.at(#[trigger] b[k]) by {}
            lemma_run_end_is(b, i + 1, e - 1, Stop::Bar);
            assert(r[0] == step.spans[0]);
        }
        if i + 1 < b.len() && (b[i + 1] == 124 || b[i + 1] == 10) {
            lemma_run_end_is(b, i + 1, i + 1, Stop::Bar);
            assert(step.spans =~= Seq::<HighlightSpan>::empty());
            assert(r =~= mermaid_spans(b, i + 1));
        }
    } else if is_arrow(c) {
        if are_arrow_bytes(b, i, e) {
            assert forall|k: int| i <= k < e implies !Stop::NoArrow.at(#[trigger] b[k]) by {
                assert(arrow_byte(b[k]));
            }
            lemma_run_end_is(b, i, e, Stop::NoArrow);
            if e >= i + 2 && (exists|k: int|
                i <= k < e && (#[trigger] b[k] == 45 || b[k] == 61 || b[k] == 62)) {
                let k = choose|k: int|
                    i <= k < e && (#[trigger] b[k] == 45 || b[k] == 61 || b[k] == 62);
                assert(draws(b[k]));
                assert(is_connector(b, i, e));
                assert(r[0] == step.spans[0]);
            } else {
                assert(!is_connector(b, i, e));
                assert(r =~= mermaid_spans(b, e));
            }
        }
    } else if is_digit_byte(c) {
        if is_a_number(b, i, e) {
            assert forall|k: int| i <= k < e implies !Stop::NoNumber.at(#[trigger] b[k]) by {}
            lemma_run_end_is(b, i, e, Stop::NoNumber);
            assert(r[0] == step.spans[0]);
        }
    } else if !(is_letter(c) || c == 95) {
        assert(step.spans =~= Seq::<HighlightSpan>::empty());
        assert(r =~= mermaid_spans(b, i + 1));
    }
    if are_arrow_bytes(b, i, e) {
        assert(arrow_byte(b[i]));
    }
}

/// The bytes from `i` on spell the word, in upper or lower case, and no letter, digit or
/// underscore follows.
pub open spec fn spells(b: Seq<u8>, i: int, w: Seq<char>) -> bool {
    &&& 0 <= i && w.len() > 0 && i + w.len() <= b.len()
    &&& forall|k: int|
        0 <= k < w.len() ==> (65 <= #[trigger] b[i + k] <= 90 || 97 <= b[i + k] <= 122) && w[k]
            == (if b[i + k] <= 90 {
            (b[i + k] + 32) as u8 as char
        } else {
            b[i + k] as char
        })
    &&& i + w.len() < b.len() ==> {
        let c = b[i + w.len()];
        !(65 <= c <= 90 || 97 <= c <= 122 || 48 <= c <= 57 || c == 95)
    }
}

/// The keywords of Mermaid.
pub open spec fn mermaid_words() -> Seq<Seq<char>> {
    seq![
        "graph"@,
        "flowchart"@,
        "sequencediagram"@,
        "classdiagram"@,
        "statediagram"@,
        "erdiagram"@,
        "gantt"@,
        "pie"@,
        "journey"@,
        "gitgraph"@,
        "mindmap"@,
        "timeline"@,
        "quadrantchart"@,
        "requirementdiagram"@,
        "subgraph"@,
        "end"@,
        "participant"@,
        "actor"@,
        "as"@,
        "activate"@,
        "deactivate"@,
        "note"@,
        "over"@,
        "loop"@,
        "alt"@,
        "else"@,
        "opt"@,
        "par"@,
        "and"@,
        "rect"@,
        "break"@,
        "critical"@,
        "option"@,
        "class"@,
        "state"@,
        "section"@,
        "title"@,
        "direction"@,
        "acctitle"@,
        "accdescr"@,
        "dateformat"@,
        "axisformat"@,
        "excludes"@,
        "includes"@,
        "todaymarker"@,
        "inclusiveenddates"@,
        "topaxis"@,
        "tickinterval"@,
        "click"@,
        "style"@,
        "linkstyle"@,
        "classdef"@,
        "callback"@,
        "link"@,
        "href"@,
        "commit"@,
        "branch"@,
        "checkout"@,
        "merge"@,
        "autonumber"@,
        "pk"@,
        "fk"@,
        "uk"@,
    ]
}

/// A word of Mermaid in upper or lower case is a constant where it is one of the five
/// directions, a keyword where it is one of the keywords, and plain otherwise.
pub proof fn law_mermaid_words(b: Seq<u8>, i: int, w: Seq<char>)
    requires
        0 <= i,
        b.len() <= usize::MAX,
        spells(b, i, w),
    ensures
        ({
            let r = mermaid_spans(b, i);
            let e = i + w.len();
            let one = |k: Capture| r.len() > 0 && is_span(r[0], i, e, k) && r == seq![r[0]]
                + mermaid_spans(b, e);
            let direction = w == seq!['t', 'b'] || w == seq!['t', 'd'] || w == seq!['b', 't'] || w
                == seq!['r', 'l'] || w == seq!['l', 'r'];
            &&& direction ==> one(Capture::Constant)
            &&& !direction && mermaid_words().contains(w) ==> one(Capture::Keyword)
            &&& !direction && !mermaid_words().contains(w) ==> r == mermaid_spans(b, e)
        }),
{
    let e = i + w.len();
    let r = mermaid_spans(b, i);
    let step = mermaid_step(b, i);
    assert(65 <= b[i + 0] <= 90 || 97 <= b[i + 0] <= 122);
    assert forall|k: int| i <= k < e implies !Stop::NoWord.at(#[trigger] b[k]) by {
        assert(b[k] == b[i + (k - i)]);
        assert(65 <= b[i + (k - i)] <= 90 || 97 <= b[i + (k - i)] <= 122);
    }
    lemma_run_end_is(b, i, e, Stop::NoWord);
    assert(word_text(b, i, e) =~= w) by {
        assert forall|k: int| 0 <= k < w.len() implies #[trigger] word_text(b, i, e)[k] == w[k] by {
            assert(65 <= b[i + k] <= 90 || 97 <= b[i + k] <= 122);
        }
    }
    lemma_directions();
    lemma_words(w);
    assert(is_direction(w) || is_keyword(w) ==> r[0] == step.spans[0]);
    if !is_direction(w) && !is_keyword(w) {
        assert(r =~= mermaid_spans(b, e));
    }
}

proof fn lemma_directions()
    ensures
        "tb"@ == seq!['t', 'b'],
        "td"@ == seq!['t', 'd'],
        "bt"@ == seq!['b', 't'],
        "rl"@ == seq!['r', 'l'],
        "lr"@ == seq!['l', 'r'],
{
    reveal_strlit("tb");
    reveal_strlit("td");
    reveal_strlit("bt");
    reveal_strlit("rl");
    reveal_strlit("lr");
    assert("tb"@ =~= seq!['t', 'b']);
    assert("td"@ =~= seq!['t', 'd']);
    assert("bt"@ =~= seq!['b', 't']);
    assert("rl"@ =~= seq!['r', 'l']);
    assert("lr"@ =~= seq!['l', 'r']);
}

proof fn lemma_words(w: Seq<char>)
    ensures
        is_keyword(w) == mermaid_words().contains(w),
{
    let words = mermaid_words();
    assert(words[0] == "graph"@);
    assert(words[1] == "flowchart"@);
    assert(words[2] == "sequencediagram"@);
    assert(words[3] == "classdiagram"@);
    assert(words[4] == "statediagram"@);
    assert(words[5] == "erdiagram"@);
    assert(words[6] == "gantt"@);
    assert(words[7] == "pie"@);
    assert(words[8] == "journey"@);
    assert(words[9] == "gitgraph"@);
    assert(words[10] == "mindmap"@);
    assert(words[11] == "timeline"@);
    assert(words[12] == "quadrantchart"@);
    assert(words[13] == "requirementdiagram"@);
    assert(words[14] == "subgraph"@);
    assert(words[15] == "end"@);
    assert(words[16] == "participant"@);
    assert(words[17] == "actor"@);
    assert(words[18] == "as"@);
    assert(words[19] == "activate"@);
    assert(words[20] == "deactivate"@);
    assert(words[21] == "note"@);
    assert(words[22] == "over"@);
    assert(words[23] == "loop"@);
    assert(words[24] == "alt"@);
    assert(words[25] == "else"@);
    assert(words[26] == "opt"@);
    assert(words[27] == "par"@);
    assert(words[28] == "and"@);
    assert(words[29] == "rect"@);
    assert(words[30] == "break"@);
    assert(words[31] == "critical"@);
    assert(words[32] == "option"@);
    assert(words[33] == "class"@);
    assert(words[34] == "state"@);
    assert(words[35] == "section"@);
    assert(words[36] == "title"@);
    assert(words[37] == "direction"@);
    assert(words[38] == "acctitle"@);
    assert(words[39] == "accdescr"@);
    assert(words[40] == "dateformat"@);
    assert(words[41] == "axisformat"@);
    assert(words[42] == "excludes"@);
    assert(words[43] == "includes"@);
    assert(words[44] == "todaymarker"@);
    assert(words[45] == "inclusiveenddates"@);
    assert(words[46] == "topaxis"@);
    assert(words[47] == "tickinterval"@);
    assert(words[48] == "click"@);
    assert(words[49] == "style"@);
    assert(words[50] == "linkstyle"@);
    assert(words[51] == "classdef"@);
    assert(words[52] == "callback"@);
    assert(words[53] == "link"@);
    assert(words[54] == "href"@);
    assert(words[55] == "commit"@);
    assert(words[56] == "branch"@);
    assert(words[57] == "checkout"@);
    assert(words[58] == "merge"@);
    assert(words[59] == "autonumber"@);
    assert(words[60] == "pk"@);
    assert(words[61] == "fk"@);
    assert(words[62] == "uk"@);
    if words.contains(w) {
        let i = choose|i: int| 0 <= i < words.len() && words[i] == w;
        assert(words.len() == 63);
    }
}

} // verus!
