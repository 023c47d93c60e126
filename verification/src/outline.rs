//! The document-map / outline panel: a list of the document's headings, the current
//! section highlighted.
use crate::text::{chars_vec, push_char, string_of};
use crate::theme::ThemeColor;
use vstd::prelude::*;
use vstd::string::*;

verus! {

/// A heading of the document.
#[derive(Debug, Clone, PartialEq)]
pub struct HeadingInfo {
    pub line: usize,
    pub level: u8,
    pub text: String,
    pub byte_offset: usize,
}

/// The headings are in document order.
pub open spec fn headings_in_order(hs: Seq<HeadingInfo>) -> bool {
    forall|i: int, j: int|
        0 <= i <= j < hs.len() ==> (#[trigger] hs[i]).line <= (#[trigger] hs[j]).line
}

/// Index of the section the cursor is in: the last heading with `line <= cursor_line`.
/// `None` when the cursor sits before the first heading. The headings must be in document
/// order.
pub fn current_heading_index(headings: &[HeadingInfo], cursor_line: usize) -> (r: Option<usize>)
    requires
        headings_in_order(headings@),
    ensures
        match r {
            Some(i) => {
                &&& i < headings@.len()
                &&& headings@[i as int].line <= cursor_line
                &&& forall|k: int|
                    i < k < headings@.len() ==> (#[trigger] headings@[k]).line > cursor_line
            },
            None => forall|k: int|
                0 <= k < headings@.len() ==> (#[trigger] headings@[k]).line > cursor_line,
        },
{
    let mut lo: usize = 0;
    let mut hi: usize = headings.len();
    while lo < hi
        invariant
            headings_in_order(headings@),
            lo <= hi <= headings@.len(),
            forall|k: int| 0 <= k < lo ==> (#[trigger] headings@[k]).line <= cursor_line,
            forall|k: int|
                hi <= k < headings@.len() ==> (#[trigger] headings@[k]).line > cursor_line,
        decreases hi - lo,
    {
        let mid = lo + (hi - lo) / 2;
        if headings[mid].line <= cursor_line {
            assert forall|k: int| 0 <= k < mid + 1 implies (
            #[trigger] headings@[k]).line <= cursor_line by {
                assert(headings@[k].line <= headings@[mid as int].line);
            }
            lo = mid + 1;
        } else {
            assert forall|k: int| mid <= k < headings@.len() implies (
            #[trigger] headings@[k]).line > cursor_line by {
                assert(headings@[mid as int].line <= headings@[k].line);
            }
            hi = mid;
        }
    }
    if lo == 0 {
        None
    } else {
        Some(lo - 1)
    }
}

/// The color of a level: H1 in foreground, deeper levels stepping through the accent
/// palette and fading toward the muted comment color.
pub open spec fn spec_level_color(level: u8) -> ThemeColor {
    if level <= 1 {
        ThemeColor::Foreground
    } else if level == 2 {
        ThemeColor::Cyan
    } else if level == 3 {
        ThemeColor::Green
    } else if level == 4 {
        ThemeColor::Orange
    } else if level == 5 {
        ThemeColor::Pink
    } else {
        ThemeColor::Comment
    }
}

/// The color of a heading level.
pub fn level_color(level: u8) -> (r: ThemeColor)
    ensures
        r == spec_level_color(level),
{
    match level {
        0 | 1 => ThemeColor::Foreground,
        2 => ThemeColor::Cyan,
        3 => ThemeColor::Green,
        4 => ThemeColor::Orange,
        5 => ThemeColor::Pink,
        _ => ThemeColor::Comment,
    }
}

/// The first characters of a text that fill `budget` places with an ellipsis behind them.
pub open spec fn shortened(text: Seq<char>, budget: int) -> Seq<char> {
    let keep = if budget <= 0 {
        0
    } else if budget - 1 < text.len() {
        budget - 1
    } else {
        text.len() as int
    };
    text.subrange(0, keep).push('…')
}

/// Truncates a heading with a trailing `…` to a budget of characters.
pub fn ellipsize(text: &str, budget: usize) -> (r: String)
    ensures
        r@ == shortened(text@, budget as int),
{
    let v = chars_vec(text);
    let keep = if budget == 0 {
        0
    } else if budget - 1 < v.len() {
        budget - 1
    } else {
        v.len()
    };
    let mut s = string_of(&v, 0, keep);
    push_char(&mut s, '…');
    s
}

/// A truncated heading without the character just before its ellipsis.
pub fn drop_before_ellipsis(s: &str) -> (r: String)
    requires
        s@.len() > 1,
    ensures
        r@ == s@.remove(s@.len() - 2),
{
    let v = chars_vec(s);
    let n = v.len();
    let mut out = string_of(&v, 0, n - 2);
    push_char(&mut out, v[n - 1]);
    assert(out@ =~= s@.remove(s@.len() - 2));
    out
}

/// Dropping the character before the ellipsis is truncating to one place less.
pub proof fn law_dropping_shortens(text: Seq<char>, budget: int)
    requires
        1 < budget <= text.len() + 1,
    ensures
        shortened(text, budget).remove(shortened(text, budget).len() - 2) == shortened(
            text,
            budget - 1,
        ),
{
    let s = shortened(text, budget);
    assert(s.remove(s.len() - 2) =~= shortened(text, budget - 1));
}

/// What a measure says of some characters, when it is asked.
pub open spec fn measured<F: Fn(&str) -> bool>(too_wide: F, text: Seq<char>, wide: bool) -> bool {
    exists|s: &str| s@ == text && #[trigger] call_ensures(too_wide, (s,), wide)
}

/// The budget that a text can fill: at least the ellipsis, at most all of it and the ellipsis.
pub open spec fn clamped_budget(text: Seq<char>, budget: int) -> int {
    if budget < 1 {
        1
    } else if budget > text.len() + 1 {
        (text.len() + 1) as int
    } else {
        budget
    }
}

/// `places` is what is left of a budget: everything above it is too wide, and it is not, or
/// only the ellipsis is left.
pub open spec fn fills<F: Fn(&str) -> bool>(
    too_wide: F,
    text: Seq<char>,
    budget: int,
    places: int,
) -> bool {
    &&& 1 <= places <= clamped_budget(text, budget)
    &&& forall|k: int|
        places < k <= clamped_budget(text, budget) ==> measured(
            too_wide,
            #[trigger] shortened(text, k),
            true,
        )
    &&& places == 1 || measured(too_wide, shortened(text, places), false)
}

/// Lay out one heading row, truncating with a trailing `…` when it is too wide. `budget` is a
/// first estimate of the characters that fit; a short shrink loop corrects any residual
/// overhang.
pub fn fit_heading<F: Fn(&str) -> bool>(text: &str, budget: usize, too_wide: F) -> (r: String)
    requires
        text@.len() < usize::MAX,
        forall|s: &str| call_requires(too_wide, (s,)),
    ensures
        r@ == text@ && (text@.len() == 0 || measured(too_wide, text@, false)) || (measured(
            too_wide,
            text@,
            true,
        ) && exists|places: int|
            r@ == #[trigger] shortened(text@, places) && fills(
                too_wide,
                text@,
                budget as int,
                places,
            )),
{
    let n = chars_vec(text).len();
    if n == 0 || !too_wide(text) {
        assert(n == 0 || call_ensures(too_wide, (text,), false));
        return text.to_owned();
    }
    assert(measured(too_wide, text@, true)) by {
        assert(call_ensures(too_wide, (text,), true));
    }
    let mut places: usize = budget;
    if places < 1 {
        places = 1;
    }
    if places > n + 1 {
        places = n + 1;
    }
    let mut s = ellipsize(text, places);
    let mut wide = too_wide(s.as_str());
    while wide && places > 1
        invariant
            n == text@.len(),
            forall|s: &str| call_requires(too_wide, (s,)),
            1 <= places <= clamped_budget(text@, budget as int),
            s@ == shortened(text@, places as int),
            measured(too_wide, s@, wide),
            forall|k: int|
                places < k <= clamped_budget(text@, budget as int) ==> measured(
                    too_wide,
                    #[trigger] shortened(text@, k),
                    true,
                ),
        decreases places,
    {
        proof {
            law_dropping_shortens(text@, places as int);
        }
        s = drop_before_ellipsis(s.as_str());
        places -= 1;
        wide = too_wide(s.as_str());
    }
    assert(fills(too_wide, text@, budget as int, places as int));
    s
}

/// The background of a row: the current section is highlighted, the row under the
/// pointer is tinted.
#[derive(Debug, Clone, Copy, PartialEq, Eq, Structural)]
pub enum RowTint {
    Current,
    Hover,
    Plain,
}

/// The background of row `i`.
pub fn row_tint(i: usize, current: Option<usize>, hover: Option<usize>) -> (r: RowTint)
    ensures
        r == (if current == Some(i) {
            RowTint::Current
        } else if hover == Some(i) {
            RowTint::Hover
        } else {
            RowTint::Plain
        }),
{
    if current == Some(i) {
        RowTint::Current
    } else if hover == Some(i) {
        RowTint::Hover
    } else {
        RowTint::Plain
    }
}

/// A truncated heading is a beginning of the heading and an ellipsis, and fills its budget
/// where the heading is long enough.
pub proof fn law_truncation_keeps_the_beginning(text: Seq<char>, budget: int)
    requires
        1 <= budget,
    ensures
        shortened(text, budget).last() == '…',
        shortened(text, budget).len() == (if budget <= text.len() {
            budget
        } else {
            text.len() as int + 1
        }),
        forall|i: int|
            0 <= i < shortened(text, budget).len() - 1 ==> #[trigger] shortened(text, budget)[i]
                == text[i],
{
}

/// Each of the six levels has a color of its own.
pub proof fn law_level_colors()
    ensures
        spec_level_color(1) == ThemeColor::Foreground,
        spec_level_color(2) == ThemeColor::Cyan,
        spec_level_color(3) == ThemeColor::Green,
        spec_level_color(4) == ThemeColor::Orange,
        spec_level_color(5) == ThemeColor::Pink,
        spec_level_color(6) == ThemeColor::Comment,
        forall|level: u8| level > 6 ==> #[trigger] spec_level_color(level) == ThemeColor::Comment,
{
}

/// A row never has less room than for its ellipsis, nor more than its text and the ellipsis
/// take; between the two it has what it is given. What fills it is the longest that is not
/// too wide.
pub proof fn law_budgets<F: Fn(&str) -> bool>(
    too_wide: F,
    text: Seq<char>,
    budget: int,
    places: int,
)
    ensures
        budget <= 1 ==> clamped_budget(text, budget) == 1,
        1 <= budget <= text.len() + 1 ==> clamped_budget(text, budget) == budget,
        budget > text.len() ==> clamped_budget(text, budget) == text.len() + 1,
        fills(too_wide, text, budget, places) ==> 1 <= places && (places == 1 || places <= budget)
            && places <= text.len() + 1 && (places > 1 ==> measured(
            too_wide,
            shortened(text, places),
            false,
        )) && (places < budget && places <= text.len() ==> measured(
            too_wide,
            shortened(text, places + 1),
            true,
        )),
{
}

} // verus!
