//! Styled runs of a line of text, as text layout takes them.
use crate::theme::ThemeColor;
use std::ops::Range;
use vstd::prelude::*;

verus! {

/// A styled sub-range of a line (color + font attributes). Buffer/marker-agnostic;
/// higher layers translate markdown/highlight spans into these.
#[derive(Clone, Debug, PartialEq)]
pub struct StyleRun {
    pub range: Range<usize>,
    pub color: ThemeColor,
    pub bold: bool,
    pub italic: bool,
    pub mono: bool,
    pub underline: bool,
    pub strikethrough: bool,
}

/// What a [`StyleRun`] says.
pub struct RunView {
    pub start: int,
    pub end: int,
    pub color: ThemeColor,
    pub bold: bool,
    pub italic: bool,
    pub mono: bool,
    pub underline: bool,
    pub strikethrough: bool,
}

impl View for StyleRun {
    type V = RunView;

    open spec fn view(&self) -> RunView {
        RunView {
            start: self.range.start as int,
            end: self.range.end as int,
            color: self.color,
            bold: self.bold,
            italic: self.italic,
            mono: self.mono,
            underline: self.underline,
            strikethrough: self.strikethrough,
        }
    }
}

/// A property that a layout is given over the range of a run.
#[derive(Debug, Clone, Copy, PartialEq, Eq, Structural)]
pub enum StyleProperty {
    Brush(ThemeColor),
    Bold,
    Italic,
    Monospace,
    Underline,
    Strikethrough,
}

/// One property, if it is set.
pub open spec fn property_if(set: bool, p: StyleProperty) -> Seq<StyleProperty> {
    if set {
        seq![p]
    } else {
        seq![]
    }
}

impl RunView {
    /// What a layout is given for the run: its color, then the font attributes it has.
    pub open spec fn properties(self) -> Seq<StyleProperty> {
        seq![StyleProperty::Brush(self.color)] + property_if(self.bold, StyleProperty::Bold)
            + property_if(self.italic, StyleProperty::Italic) + property_if(
            self.mono,
            StyleProperty::Monospace,
        ) + property_if(self.underline, StyleProperty::Underline) + property_if(
            self.strikethrough,
            StyleProperty::Strikethrough,
        )
    }
}

/// A run with a color and nothing else.
pub open spec fn plain_run(start: int, end: int, color: ThemeColor) -> RunView {
    RunView {
        start,
        end,
        color,
        bold: false,
        italic: false,
        mono: false,
        underline: false,
        strikethrough: false,
    }
}

/// What some runs say.
pub open spec fn runs_view(rs: Seq<StyleRun>) -> Seq<RunView> {
    rs.map_values(|r: StyleRun| r@)
}

impl StyleRun {
    /// A run with a color and no font attributes.
    pub fn new(range: Range<usize>, color: ThemeColor) -> (r: Self)
        ensures
            r@ == plain_run(range.start as int, range.end as int, color),
    {
        StyleRun {
            range,
            color,
            bold: false,
            italic: false,
            mono: false,
            underline: false,
            strikethrough: false,
        }
    }

    /// What a layout is given over the range of the run, in this order.
    pub fn properties(&self) -> (r: Vec<StyleProperty>)
        ensures
            r@ == self@.properties(),
    {
        let mut out: Vec<StyleProperty> = Vec::new();
        out.push(StyleProperty::Brush(self.color));
        if self.bold {
            out.push(StyleProperty::Bold);
        }
        if self.italic {
            out.push(StyleProperty::Italic);
        }
        if self.mono {
            out.push(StyleProperty::Monospace);
        }
        if self.underline {
            out.push(StyleProperty::Underline);
        }
        if self.strikethrough {
            out.push(StyleProperty::Strikethrough);
        }
        assert(out@ =~= self@.properties());
        out
    }
}

/// A layout is given the color of a run first, and then each attribute that the run has, and
/// no other.
pub proof fn law_run_properties(r: RunView)
    ensures
        ({
            let ps = r.properties();
            &&& ps.len() > 0 && ps[0] == StyleProperty::Brush(r.color)
            &&& ps.contains(StyleProperty::Bold) <==> r.bold
            &&& ps.contains(StyleProperty::Italic) <==> r.italic
            &&& ps.contains(StyleProperty::Monospace) <==> r.mono
            &&& ps.contains(StyleProperty::Underline) <==> r.underline
            &&& ps.contains(StyleProperty::Strikethrough) <==> r.strikethrough
        }),
{
    let a = seq![StyleProperty::Brush(r.color)];
    let b = a + property_if(r.bold, StyleProperty::Bold);
    let c = b + property_if(r.italic, StyleProperty::Italic);
    let d = c + property_if(r.mono, StyleProperty::Monospace);
    let e = d + property_if(r.underline, StyleProperty::Underline);
    let f = e + property_if(r.strikethrough, StyleProperty::Strikethrough);
    assert(f == r.properties());
    assert(a[0] == StyleProperty::Brush(r.color));
    lemma_with_property(a, r.bold, StyleProperty::Bold);
    lemma_with_property(b, r.italic, StyleProperty::Italic);
    lemma_with_property(c, r.mono, StyleProperty::Monospace);
    lemma_with_property(d, r.underline, StyleProperty::Underline);
    lemma_with_property(e, r.strikethrough, StyleProperty::Strikethrough);
}

proof fn lemma_with_property(ps: Seq<StyleProperty>, set: bool, p: StyleProperty)
    ensures
        forall|q: StyleProperty| #[trigger] (ps + property_if(set, p)).contains(q) <==> ps.contains(
            q,
        ) || (set && q == p),
        ps.len() > 0 ==> (ps + property_if(set, p))[0] == ps[0],
{
    let all = ps + property_if(set, p);
    assert forall|q: StyleProperty| #[trigger] all.contains(q) <==> ps.contains(q) || (set && q
        == p) by {
        if ps.contains(q) {
            let i = ps.index_of(q);
            assert(all[i] == q);
        }
        if set && q == p {
            assert(all[ps.len() as int] == p);
        }
        if all.contains(q) {
            let i = all.index_of(q);
            assert(all[i] == q);
            if i < ps.len() {
                assert(ps[i] == q);
            }
        }
    }
}

/// A plain run has its range and color and no attribute.
pub proof fn law_plain_runs(start: int, end: int, color: ThemeColor)
    ensures
        ({
            let r = plain_run(start, end, color);
            &&& r.start == start && r.end == end && r.color == color
            &&& !r.bold && !r.italic && !r.mono && !r.underline && !r.strikethrough
        }),
{
}

} // verus!
