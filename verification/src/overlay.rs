//! Overlays: what the GitHub-ref hover popover and the autocomplete dropdown say, and
//! which reference is under an offset.
use crate::marker::text_if_any;
use crate::refs::{
    context_view, GitHubContext, GitHubRef, MatchView, NakedUrl, NakedUrlView, RawGitHubMatch,
    RefView,
};
use crate::text::{byte_len, chars_vec, decimal, decimal_string, lemma_encode_concat, push_char, string_of};
use crate::text_engine::{plain_run, runs_view, RunView, StyleRun};
use crate::theme::ThemeColor;
use crate::validation::{
    IssueStatus, RefDataView, StateView, ValidatedRefData, ValidationState,
};
use std::ops::Range;
use vstd::prelude::*;
use vstd::string::*;
use vstd::utf8::*;

verus! {

// ---------------------------------------------------------------------------
// The reference under an offset
// ---------------------------------------------------------------------------

/// The first match from `i` on that holds an offset.
pub open spec fn match_at(ms: Seq<MatchView>, off: int, i: int) -> Option<(RefView, int)>
    decreases ms.len() - i,
{
    if i < 0 || i >= ms.len() {
        None
    } else if ms[i].start <= off < ms[i].end {
        Some((ms[i].reference, ms[i].start))
    } else {
        match_at(ms, off, i + 1)
    }
}

/// The first URL from `i` on that holds an offset and stands for a reference.
pub open spec fn url_at(us: Seq<NakedUrlView>, off: int, i: int) -> Option<(RefView, int)>
    decreases us.len() - i,
{
    if i < 0 || i >= us.len() {
        None
    } else if us[i].start <= off < us[i].end && us[i].github_ref is Some {
        Some((us[i].github_ref->0, us[i].start))
    } else {
        url_at(us, off, i + 1)
    }
}

/// The reference under an offset of a line, and where it starts: one of the line's
/// references, else one that a URL stands for.
pub open spec fn target_at(ms: Seq<MatchView>, us: Seq<NakedUrlView>, off: int) -> Option<
    (RefView, int),
> {
    match match_at(ms, off, 0) {
        Some(t) => Some(t),
        None => url_at(us, off, 0),
    }
}

/// Find the GitHub ref whose byte range contains `off`, among the references and the URLs
/// of its line, with the offset at which it starts (the popover's anchor).
pub fn hover_target_at_offset(refs: &[RawGitHubMatch], urls: &[NakedUrl], off: usize) -> (r: Option<
    (GitHubRef, usize),
>)
    ensures
        match r {
            Some((reference, start)) => target_at(
                refs@.map_values(|m: RawGitHubMatch| m@),
                urls@.map_values(|u: NakedUrl| u@),
                off as int,
            ) == Some((reference@, start as int)),
            None => target_at(
                refs@.map_values(|m: RawGitHubMatch| m@),
                urls@.map_values(|u: NakedUrl| u@),
                off as int,
            ) is None,
        },
{
    let ghost ms = refs@.map_values(|m: RawGitHubMatch| m@);
    let ghost us = urls@.map_values(|u: NakedUrl| u@);
    let mut i: usize = 0;
    while i < refs.len()
        invariant
            ms == refs@.map_values(|m: RawGitHubMatch| m@),
            i <= refs@.len(),
            match_at(ms, off as int, 0) == match_at(ms, off as int, i as int),
        decreases refs@.len() - i,
    {
        let m = &refs[i];
        assert(ms[i as int] == m@);
        if off >= m.byte_range.start && off < m.byte_range.end {
            return Some((m.reference.clone(), m.byte_range.start));
        }
        i += 1;
    }
    let mut j: usize = 0;
    while j < urls.len()
        invariant
            ms == refs@.map_values(|m: RawGitHubMatch| m@),
            us == urls@.map_values(|u: NakedUrl| u@),
            j <= urls@.len(),
            match_at(ms, off as int, 0) is None,
            url_at(us, off as int, 0) == url_at(us, off as int, j as int),
        decreases urls@.len() - j,
    {
        let u = &urls[j];
        assert(us[j as int] == u@);
        if off >= u.byte_range.start && off < u.byte_range.end {
            if let Some(r) = &u.github_ref {
                return Some((r.clone(), u.byte_range.start));
            }
        }
        j += 1;
    }
    None
}

// ---------------------------------------------------------------------------
// Segments
// ---------------------------------------------------------------------------

/// The color of an issue/PR status.
pub open spec fn spec_status_color(status: IssueStatus) -> ThemeColor {
    match status {
        IssueStatus::Open => ThemeColor::Green,
        IssueStatus::Draft => ThemeColor::Comment,
        IssueStatus::Merged => ThemeColor::Purple,
        IssueStatus::Closed => ThemeColor::Purple,
        IssueStatus::ClosedNotPlanned => ThemeColor::Red,
    }
}

/// Text color for an issue/PR status badge.
pub fn status_color(status: IssueStatus) -> (r: ThemeColor)
    ensures
        r == spec_status_color(status),
{
    match status {
        IssueStatus::Open => ThemeColor::Green,
        IssueStatus::Draft => ThemeColor::Comment,
        IssueStatus::Merged | IssueStatus::Closed => ThemeColor::Purple,
        IssueStatus::ClosedNotPlanned => ThemeColor::Red,
    }
}

/// A styled span in a hover/autocomplete panel line: text plus color and inline
/// markdown attributes. Titles carry `bold`/`italic`/`mono`; all other segments
/// are `PanelSeg::plain`.
#[derive(Debug, Clone, PartialEq)]
pub struct PanelSeg {
    pub text: String,
    pub color: ThemeColor,
    pub bold: bool,
    pub italic: bool,
    pub mono: bool,
}

/// What a [`PanelSeg`] says.
pub struct SegView {
    pub text: Seq<char>,
    pub color: ThemeColor,
    pub bold: bool,
    pub italic: bool,
    pub mono: bool,
}

impl View for PanelSeg {
    type V = SegView;

    open spec fn view(&self) -> SegView {
        SegView {
            text: self.text@,
            color: self.color,
            bold: self.bold,
            italic: self.italic,
            mono: self.mono,
        }
    }
}

/// What some segments say.
pub open spec fn segs_view(ss: Seq<PanelSeg>) -> Seq<SegView> {
    ss.map_values(|s: PanelSeg| s@)
}

/// Text without attributes.
pub open spec fn plain_seg(text: Seq<char>, color: ThemeColor) -> SegView {
    SegView { text, color, bold: false, italic: false, mono: false }
}

impl PanelSeg {
    /// Text without attributes.
    pub fn plain(text: String, color: ThemeColor) -> (r: Self)
        ensures
            r@ == plain_seg(text@, color),
    {
        PanelSeg { text, color, bold: false, italic: false, mono: false }
    }

    /// Bold text.
    pub fn bold(text: String, color: ThemeColor) -> (r: Self)
        ensures
            r@ == (SegView { bold: true, ..plain_seg(text@, color) }),
    {
        PanelSeg { text, color, bold: true, italic: false, mono: false }
    }

    /// Italic text.
    pub fn italic(text: String, color: ThemeColor) -> (r: Self)
        ensures
            r@ == (SegView { italic: true, ..plain_seg(text@, color) }),
    {
        PanelSeg { text, color, bold: false, italic: true, mono: false }
    }

    /// Code.
    pub fn mono(text: String, color: ThemeColor) -> (r: Self)
        ensures
            r@ == (SegView { mono: true, ..plain_seg(text@, color) }),
    {
        PanelSeg { text, color, bold: false, italic: false, mono: true }
    }
}

fn push_seg(out: &mut Vec<PanelSeg>, s: PanelSeg)
    ensures
        segs_view(final(out)@) == segs_view(old(out)@).push(s@),
{
    let ghost before = out@;
    out.push(s);
    assert(segs_view(out@) =~= segs_view(before).push(s@));
}

// ---------------------------------------------------------------------------
// Titles
// ---------------------------------------------------------------------------

/// The next `marker` at or after `from`, if there is one.
pub open spec fn close_single(s: Seq<char>, from: int, marker: char) -> Option<int>
    decreases s.len() - from,
{
    if from < 0 || from >= s.len() {
        None
    } else if s[from] == marker {
        Some(from)
    } else {
        close_single(s, from + 1, marker)
    }
}

/// The first of the next two `marker`s in a row at or after `from`, if there are any.
pub open spec fn close_double(s: Seq<char>, from: int, marker: char) -> Option<int>
    decreases s.len() - from,
{
    if from < 0 || from + 1 >= s.len() {
        None
    } else if s[from] == marker && s[from + 1] == marker {
        Some(from)
    } else {
        close_double(s, from + 1, marker)
    }
}

/// A marked-up part of a title that starts at `i`: its segment, and where the title goes
/// on behind it.
pub struct TitlePart {
    pub seg: SegView,
    pub end: int,
}

/// The marked-up part that starts at `i`, if one does: `**bold**` before `*italic*`. An
/// unterminated delimiter is none.
pub open spec fn part_at(s: Seq<char>, i: int, color: ThemeColor) -> Option<TitlePart> {
    let c = s[i];
    if c == '*' && i + 1 < s.len() && s[i + 1] == '*' {
        match close_double(s, i + 2, '*') {
            Some(e) => Some(
                TitlePart {
                    seg: SegView { bold: true, ..plain_seg(s.subrange(i + 2, e), color) },
                    end: e + 2,
                },
            ),
            None => None,
        }
    } else if c == '*' || c == '_' || c == '`' {
        match close_single(s, i + 1, c) {
            Some(e) => Some(
                TitlePart {
                    seg: SegView {
                        italic: c != '`',
                        mono: c == '`',
                        ..plain_seg(s.subrange(i + 1, e), color)
                    },
                    end: e + 1,
                },
            ),
            None => None,
        }
    } else {
        None
    }
}

/// Plain text, if there is any.
pub open spec fn flushed(plain: Seq<char>, color: ThemeColor) -> Seq<SegView> {
    if plain.len() == 0 {
        seq![]
    } else {
        seq![plain_seg(plain, color)]
    }
}

/// The segments of a title from `i` on, where `plain` was read before it.
pub open spec fn title_from(s: Seq<char>, i: int, plain: Seq<char>, color: ThemeColor) -> Seq<
    SegView,
>
    decreases s.len() - i,
{
    if i < 0 || i >= s.len() {
        flushed(plain, color)
    } else {
        match part_at(s, i, color) {
            Some(p) => if i < p.end <= s.len() {
                flushed(plain, color) + seq![p.seg] + title_from(s, p.end, seq![], color)
            } else {
                seq![]
            },
            None => title_from(s, i + 1, plain.push(s[i]), color),
        }
    }
}

/// The segments of a title. An empty title has one empty segment.
pub open spec fn title_segments(title: Seq<char>, color: ThemeColor) -> Seq<SegView> {
    let segs = title_from(title, 0, seq![], color);
    if segs.len() == 0 {
        seq![plain_seg(seq![], color)]
    } else {
        segs
    }
}

/// Index of the next `marker` char at or after `from`, or None if unterminated.
pub fn find_close_single(chars: &Vec<char>, from: usize, marker: char) -> (r: Option<usize>)
    ensures
        match r {
            Some(e) => close_single(chars@, from as int, marker) == Some(e as int) && from <= e
                < chars@.len(),
            None => close_single(chars@, from as int, marker) is None,
        },
{
    let n = chars.len();
    let mut j: usize = from;
    while j < n
        invariant
            n == chars@.len(),
            from <= j,
            close_single(chars@, from as int, marker) == close_single(chars@, j as int, marker),
        decreases n - j,
    {
        if chars[j] == marker {
            return Some(j);
        }
        j += 1;
    }
    None
}

/// Index of the first char of a `marker`×2 run at or after `from`, or None.
pub fn find_close_double(chars: &Vec<char>, from: usize, marker: char) -> (r: Option<usize>)
    requires
        from <= chars@.len(),
    ensures
        match r {
            Some(e) => close_double(chars@, from as int, marker) == Some(e as int) && from <= e && e
                + 1 < chars@.len(),
            None => close_double(chars@, from as int, marker) is None,
        },
{
    let n = chars.len();
    let mut j: usize = from;
    while j < n && n - j > 1
        invariant
            n == chars@.len(),
            from <= j <= n,
            close_double(chars@, from as int, marker) == close_double(chars@, j as int, marker),
        decreases n - j,
    {
        if chars[j] == marker && chars[j + 1] == marker {
            return Some(j);
        }
        j += 1;
    }
    None
}

/// The marked-up part that starts at `i`, and where it ends.
fn read_part(chars: &Vec<char>, i: usize, color: ThemeColor) -> (r: Option<(PanelSeg, usize)>)
    requires
        i < chars@.len(),
    ensures
        match r {
            Some((seg, end)) => part_at(chars@, i as int, color) == Some(
                TitlePart { seg: seg@, end: end as int },
            ) && i < end <= chars@.len(),
            None => part_at(chars@, i as int, color) is None,
        },
{
    let n = chars.len();
    let c = chars[i];
    // `**bold**` — must check the double marker before the single `*`.
    if c == '*' && i + 1 < n && chars[i + 1] == '*' {
        return match find_close_double(chars, i + 2, '*') {
            Some(e) => Some((PanelSeg::bold(string_of(chars, i + 2, e), color), e + 2)),
            None => None,
        };
    }
    if c == '*' || c == '_' {
        return match find_close_single(chars, i + 1, c) {
            Some(e) => Some((PanelSeg::italic(string_of(chars, i + 1, e), color), e + 1)),
            None => None,
        };
    }
    if c == '`' {
        return match find_close_single(chars, i + 1, '`') {
            Some(e) => Some((PanelSeg::mono(string_of(chars, i + 1, e), color), e + 1)),
            None => None,
        };
    }
    None
}

fn flush_plain(out: &mut Vec<PanelSeg>, plain: String, color: ThemeColor)
    ensures
        segs_view(final(out)@) == segs_view(old(out)@) + flushed(plain@, color),
{
    let ghost before = segs_view(out@);
    if !plain.as_str().is_empty() {
        push_seg(out, PanelSeg::plain(plain, color));
    }
    assert(segs_view(out@) =~= before + flushed(plain@, color));
}

/// Scan an issue/PR `title` and emit styled spans, translating a small subset of
/// inline markdown (`` `code` ``, `**bold**`, `*italic*`/`_italic_`) into
/// attributes with the delimiters stripped. Non-nested, left-to-right; an
/// unterminated delimiter is emitted as literal text. All spans use `color`.
pub fn parse_title_markdown(title: &str, color: ThemeColor) -> (out: Vec<PanelSeg>)
    ensures
        segs_view(out@) == title_segments(title@, color),
{
    let chars = chars_vec(title);
    let n = chars.len();
    let mut out: Vec<PanelSeg> = Vec::new();
    let mut plain = String::new();
    let mut i: usize = 0;
    let ghost all = title_from(title@, 0, seq![], color);
    assert(plain@ =~= Seq::<char>::empty());
    assert(segs_view(out@) + all =~= all);
    while i < n
        invariant
            n == chars@.len(),
            chars@ == title@,
            i <= n,
            all == title_from(title@, 0, seq![], color),
            segs_view(out@) + title_from(title@, i as int, plain@, color) == all,
        decreases n - i,
    {
        let ghost before = segs_view(out@);
        let ghost read = plain@;
        match read_part(&chars, i, color) {
            Some((seg, end)) => {
                flush_plain(&mut out, plain, color);
                push_seg(&mut out, seg);
                plain = String::new();
                assert(plain@ =~= Seq::<char>::empty());
                assert(segs_view(out@) + title_from(title@, end as int, plain@, color) =~= before
                    + title_from(title@, i as int, read, color));
                i = end;
            },
            None => {
                push_char(&mut plain, chars[i]);
                i += 1;
            },
        }
    }
    flush_plain(&mut out, plain, color);
    assert(segs_view(out@) == all);
    if out.len() == 0 {
        let empty = String::new();
        assert(empty@ =~= Seq::<char>::empty());
        push_seg(&mut out, PanelSeg::plain(empty, color));
        assert(segs_view(out@) =~= title_segments(title@, color));
    }
    out
}

// ---------------------------------------------------------------------------
// Lines of a panel
// ---------------------------------------------------------------------------

/// The segments of an issue/PR.
pub open spec fn issue_line(
    symbol: Seq<char>,
    number: u64,
    title: Seq<char>,
    status: IssueStatus,
) -> Seq<SegView> {
    seq![
        plain_seg(symbol + " "@, spec_status_color(status)),
        plain_seg("#"@ + decimal(number as nat) + " "@, ThemeColor::Cyan),
    ] + title_segments(title, ThemeColor::Foreground)
}

/// Colored segments for an issue/PR: `<symbol> #<number> <title>`, with the
/// title's inline markdown rendered.
pub fn issue_segments(symbol: &str, number: u64, title: &str, status: IssueStatus) -> (r: Vec<
    PanelSeg,
>)
    ensures
        segs_view(r@) == issue_line(symbol@, number, title@, status),
{
    let mut v: Vec<PanelSeg> = Vec::new();
    assert(segs_view(v@) =~= Seq::<SegView>::empty());
    let badge = symbol.to_owned().concat(" ");
    push_seg(&mut v, PanelSeg::plain(badge, status_color(status)));
    let id = "#".to_owned().concat(decimal_string(number).as_str()).concat(" ");
    push_seg(&mut v, PanelSeg::plain(id, ThemeColor::Cyan));
    let head = v;
    let title_segs = parse_title_markdown(title, ThemeColor::Foreground);
    let r = joined(head, title_segs);
    assert(segs_view(r@) =~= issue_line(symbol@, number, title@, status));
    r
}

fn joined(a: Vec<PanelSeg>, b: Vec<PanelSeg>) -> (r: Vec<PanelSeg>)
    ensures
        segs_view(r@) == segs_view(a@) + segs_view(b@),
{
    let mut a = a;
    let mut b = b;
    let ghost before = a@;
    let ghost more = b@;
    a.append(&mut b);
    assert(segs_view(a@) =~= segs_view(before) + segs_view(more));
    a
}

/// The segments of a user.
pub open spec fn user_line(login: Seq<char>, name: Option<Seq<char>>) -> Seq<SegView> {
    seq![plain_seg("@"@ + login, ThemeColor::Cyan)] + (match name {
        Some(name) => seq![plain_seg("  "@ + name, ThemeColor::Comment)],
        None => seq![],
    })
}

/// Colored segments for a user: `@login` and, if present, its display name.
pub fn user_segments(login: &str, name: &Option<String>) -> (r: Vec<PanelSeg>)
    ensures
        segs_view(r@) == user_line(login@, text_if_any(*name)),
{
    let mut v: Vec<PanelSeg> = Vec::new();
    assert(segs_view(v@) =~= Seq::<SegView>::empty());
    push_seg(&mut v, PanelSeg::plain("@".to_owned().concat(login), ThemeColor::Cyan));
    if let Some(name) = name {
        let shown = "  ".to_owned().concat(name.as_str());
        push_seg(&mut v, PanelSeg::plain(shown, ThemeColor::Comment));
    }
    assert(segs_view(v@) =~= user_line(login@, text_if_any(*name)));
    v
}

/// A status glyph followed by a reference's short display text.
pub open spec fn status_line(
    symbol: Seq<char>,
    color: ThemeColor,
    reference: RefView,
    context: Option<(Seq<char>, Seq<char>)>,
) -> Seq<SegView> {
    seq![
        plain_seg(symbol, color),
        plain_seg(reference.short_display(context), ThemeColor::Cyan),
    ]
}

/// A hover line for a ref that has no validated title: a status glyph followed by
/// the ref's short display text.
pub fn status_display_line(
    symbol: &str,
    symbol_color: ThemeColor,
    reference: &GitHubRef,
    context: Option<&GitHubContext>,
) -> (r: Vec<PanelSeg>)
    requires
        reference@.cuts(),
    ensures
        segs_view(r@) == status_line(symbol@, symbol_color, reference@, context_view(context)),
{
    let mut v: Vec<PanelSeg> = Vec::new();
    assert(segs_view(v@) =~= Seq::<SegView>::empty());
    push_seg(&mut v, PanelSeg::plain(symbol.to_owned(), symbol_color));
    push_seg(&mut v, PanelSeg::plain(reference.short_display(context), ThemeColor::Cyan));
    assert(segs_view(v@) =~= status_line(
        symbol@,
        symbol_color,
        reference@,
        context_view(context),
    ));
    v
}

/// What the popover says of a reference: what is known of the issue or the user; else
/// whether the reference exists, or that this is not known yet.
pub open spec fn hover_line(
    reference: RefView,
    state: Option<StateView>,
    context: Option<(Seq<char>, Seq<char>)>,
) -> Seq<SegView> {
    match state {
        Some(StateView::Valid(Some(RefDataView::Issue(i)))) => issue_line(
            i.symbol(),
            i.number,
            i.title,
            i.status(),
        ),
        Some(StateView::Valid(Some(RefDataView::User(u)))) => user_line(u.login, u.name),
        Some(StateView::Valid(None)) => status_line(
            "✓ "@,
            ThemeColor::Green,
            reference,
            context,
        ),
        Some(StateView::Invalid) => status_line("✗ "@, ThemeColor::Red, reference, context),
        _ => status_line("… "@, ThemeColor::Comment, reference, context),
    }
}

/// What an optional state says.
pub open spec fn state_if_any(s: Option<ValidationState>) -> Option<StateView> {
    match s {
        Some(s) => Some(s@),
        None => None,
    }
}

/// The state brings data of its own, so the reference's text is not shown.
pub open spec fn has_data(s: Option<StateView>) -> bool {
    s matches Some(StateView::Valid(Some(_)))
}

/// The colored text segments shown in a ref's hover popover, per validation state.
pub fn hover_segments(
    reference: &GitHubRef,
    state: &Option<ValidationState>,
    context: Option<&GitHubContext>,
) -> (r: Vec<PanelSeg>)
    requires
        has_data(state_if_any(*state)) || reference@.cuts(),
    ensures
        segs_view(r@) == hover_line(reference@, state_if_any(*state), context_view(context)),
{
    match state {
        Some(ValidationState::Valid(d)) => match d {
            Some(ValidatedRefData::Issue(issue)) => issue_segments(
                issue.symbol(),
                issue.number,
                issue.title.as_str(),
                issue.status(),
            ),
            Some(ValidatedRefData::User(user)) => user_segments(user.login.as_str(), &user.name),
            None => status_display_line("✓ ", ThemeColor::Green, reference, context),
        },
        Some(ValidationState::Invalid) => status_display_line(
            "✗ ",
            ThemeColor::Red,
            reference,
            context,
        ),
        Some(ValidationState::Pending) => status_display_line(
            "… ",
            ThemeColor::Comment,
            reference,
            context,
        ),
        None => status_display_line("… ", ThemeColor::Comment, reference, context),
    }
}

/// A row of the autocomplete dropdown.
#[derive(Debug, Clone, PartialEq)]
pub enum AutocompleteSuggestion {
    IssueOrPr { number: u64, symbol: String, status: IssueStatus, title: String },
    User { login: String, name: Option<String> },
}

/// What an [`AutocompleteSuggestion`] says.
pub enum SuggestionView {
    IssueOrPr { number: u64, symbol: Seq<char>, status: IssueStatus, title: Seq<char> },
    User { login: Seq<char>, name: Option<Seq<char>> },
}

impl View for AutocompleteSuggestion {
    type V = SuggestionView;

    open spec fn view(&self) -> SuggestionView {
        match *self {
            AutocompleteSuggestion::IssueOrPr { number, symbol, status, title } =>
                SuggestionView::IssueOrPr { number, symbol: symbol@, status, title: title@ },
            AutocompleteSuggestion::User { login, name } => SuggestionView::User {
                login: login@,
                name: text_if_any(name),
            },
        }
    }
}

/// The segments of a suggestion.
pub open spec fn suggestion_line(s: SuggestionView) -> Seq<SegView> {
    match s {
        SuggestionView::IssueOrPr { number, symbol, status, title } => issue_line(
            symbol,
            number,
            title,
            status,
        ),
        SuggestionView::User { login, name } => user_line(login, name),
    }
}

/// The colored text segments for one autocomplete row.
pub fn suggestion_segments(s: &AutocompleteSuggestion) -> (r: Vec<PanelSeg>)
    ensures
        segs_view(r@) == suggestion_line(s@),
{
    match s {
        AutocompleteSuggestion::IssueOrPr { number, symbol, status, title } => issue_segments(
            symbol.as_str(),
            *number,
            title.as_str(),
            *status,
        ),
        AutocompleteSuggestion::User { login, name } => user_segments(login.as_str(), name),
    }
}

// ---------------------------------------------------------------------------
// One styled line
// ---------------------------------------------------------------------------

/// Segments as one line: the text, its runs, and the ranges of its code.
#[derive(Debug)]
pub struct PanelLine {
    pub text: String,
    pub runs: Vec<StyleRun>,
    pub code_ranges: Vec<Range<usize>>,
}

/// What a [`PanelLine`] says.
pub struct PanelLineView {
    pub text: Seq<char>,
    pub runs: Seq<RunView>,
    pub code: Seq<(int, int)>,
}

/// The first `k` segments as one line.
pub open spec fn line_of_segments(segs: Seq<SegView>, k: int) -> PanelLineView
    decreases k,
{
    if k <= 0 {
        PanelLineView { text: seq![], runs: seq![], code: seq![] }
    } else {
        let p = line_of_segments(segs, k - 1);
        let s = segs[k - 1];
        let from = encode_utf8(p.text).len() as int;
        let to = from + encode_utf8(s.text).len();
        PanelLineView {
            text: p.text + s.text,
            runs: p.runs.push(
                RunView {
                    bold: s.bold,
                    italic: s.italic,
                    mono: s.mono,
                    ..plain_run(from, to, s.color)
                },
            ),
            code: if s.mono {
                p.code.push((from, to))
            } else {
                p.code
            },
        }
    }
}

/// Lay out colored `segments` into a single styled line. Panel text is built directly, so
/// a mono segment's byte range in the text is already its display range — usable as-is
/// for the code-chip background.
pub fn segments_to_line(segments: &[PanelSeg]) -> (r: PanelLine)
    ensures
        r.text@ == line_of_segments(segs_view(segments@), segments@.len() as int).text,
        runs_view(r.runs@) == line_of_segments(segs_view(segments@), segments@.len() as int).runs,
        r.code_ranges@.map_values(|c: Range<usize>| (c.start as int, c.end as int))
            == line_of_segments(segs_view(segments@), segments@.len() as int).code,
{
    let ghost segs = segs_view(segments@);
    let mut text = String::new();
    let mut runs: Vec<StyleRun> = Vec::new();
    let mut code_ranges: Vec<Range<usize>> = Vec::new();
    let mut i: usize = 0;
    assert(text@ =~= Seq::<char>::empty());
    assert(runs_view(runs@) =~= Seq::<RunView>::empty());
    assert(code_ranges@.map_values(|c: Range<usize>| (c.start as int, c.end as int))
        =~= Seq::<(int, int)>::empty());
    while i < segments.len()
        invariant
            segs == segs_view(segments@),
            i <= segments@.len(),
            text@ == line_of_segments(segs, i as int).text,
            runs_view(runs@) == line_of_segments(segs, i as int).runs,
            code_ranges@.map_values(|c: Range<usize>| (c.start as int, c.end as int))
                == line_of_segments(segs, i as int).code,
        decreases segments@.len() - i,
    {
        let seg = &segments[i];
        assert(segs[i as int] == seg@);
        let start = byte_len(text.as_str());
        let ghost before = text@;
        text.append(seg.text.as_str());
        proof {
            lemma_encode_concat(before, seg.text@);
        }
        let end = byte_len(text.as_str());
        if seg.mono {
            let ghost old_code = code_ranges@;
            code_ranges.push(start..end);
            assert(code_ranges@.map_values(|c: Range<usize>| (c.start as int, c.end as int))
                =~= old_code.map_values(|c: Range<usize>| (c.start as int, c.end as int)).push(
                (start as int, end as int),
            ));
        }
        let mut run = StyleRun::new(start..end, seg.color);
        run.bold = seg.bold;
        run.italic = seg.italic;
        run.mono = seg.mono;
        let ghost old_runs = runs@;
        runs.push(run);
        assert(runs_view(runs@) =~= runs_view(old_runs).push(run@));
        i += 1;
    }
    PanelLine { text, runs, code_ranges }
}

// ---------------------------------------------------------------------------
// Laws
// ---------------------------------------------------------------------------

/// A title without `*`, `_` and backticks is one plain segment.
pub proof fn law_plain_title(title: Seq<char>, color: ThemeColor)
    requires
        forall|i: int|
            0 <= i < title.len() ==> (#[trigger] title[i]) != '*' && title[i] != '_' && title[i]
                != '`',
    ensures
        title_segments(title, color) == seq![plain_seg(title, color)],
{
    lemma_plain_title_from(title, 0, seq![], color);
    assert(title.subrange(0, title.len() as int) =~= title);
    assert(Seq::<char>::empty() + title =~= title);
    if title.len() == 0 {
        assert(title =~= Seq::<char>::empty());
    }
}

proof fn lemma_plain_title_from(title: Seq<char>, i: int, plain: Seq<char>, color: ThemeColor)
    requires
        0 <= i <= title.len(),
        forall|i: int|
            0 <= i < title.len() ==> (#[trigger] title[i]) != '*' && title[i] != '_' && title[i]
                != '`',
    ensures
        title_from(title, i, plain, color) == flushed(
            plain + title.subrange(i, title.len() as int),
            color,
        ),
    decreases title.len() - i,
{
    if i < title.len() {
        assert(part_at(title, i, color) is None);
        lemma_plain_title_from(title, i + 1, plain.push(title[i]), color);
        assert(plain.push(title[i]) + title.subrange(i + 1, title.len() as int) =~= plain
            + title.subrange(i, title.len() as int));
    } else {
        assert(plain + title.subrange(i, title.len() as int) =~= plain);
    }
}

/// The reference under an offset is that of the first match that holds it; only where none
/// does, that of the first URL that holds it and stands for one.
pub proof fn law_reference_under_an_offset(
    ms: Seq<MatchView>,
    us: Seq<NakedUrlView>,
    off: int,
    i: int,
)
    ensures
        0 <= i < ms.len() && ms[i].start <= off < ms[i].end && (forall|k: int|
            0 <= k < i ==> !((#[trigger] ms[k]).start <= off < ms[k].end)) ==> target_at(
            ms,
            us,
            off,
        ) == Some((ms[i].reference, ms[i].start)),
        (forall|k: int| 0 <= k < ms.len() ==> !((#[trigger] ms[k]).start <= off < ms[k].end)) && 0
            <= i < us.len() && us[i].start <= off < us[i].end && us[i].github_ref is Some && (
        forall|k: int|
            0 <= k < i ==> !((#[trigger] us[k]).start <= off < us[k].end
                && us[k].github_ref is Some)) ==> target_at(ms, us, off) == Some(
            (us[i].github_ref->0, us[i].start),
        ),
        (forall|k: int| 0 <= k < ms.len() ==> !((#[trigger] ms[k]).start <= off < ms[k].end)) && (
        forall|k: int|
            0 <= k < us.len() ==> !((#[trigger] us[k]).start <= off < us[k].end
                && us[k].github_ref is Some)) ==> target_at(ms, us, off) is None,
{
    if forall|k: int| 0 <= k < ms.len() ==> !((#[trigger] ms[k]).start <= off < ms[k].end) {
        lemma_match_skip(ms, off, 0, ms.len() as int);
    }
    if 0 <= i < ms.len() && forall|k: int|
        0 <= k < i ==> !((#[trigger] ms[k]).start <= off < ms[k].end) {
        lemma_match_skip(ms, off, 0, i);
    }
    if 0 <= i < us.len() && forall|k: int|
        0 <= k < i ==> !((#[trigger] us[k]).start <= off < us[k].end && us[k].github_ref is Some) {
        lemma_url_skip(us, off, 0, i);
    }
    if forall|k: int|
        0 <= k < us.len() ==> !((#[trigger] us[k]).start <= off < us[k].end
            && us[k].github_ref is Some) {
        lemma_url_skip(us, off, 0, us.len() as int);
    }
}

proof fn lemma_match_skip(ms: Seq<MatchView>, off: int, from: int, to: int)
    requires
        0 <= from <= to <= ms.len(),
        forall|k: int| from <= k < to ==> !((#[trigger] ms[k]).start <= off < ms[k].end),
    ensures
        match_at(ms, off, from) == match_at(ms, off, to),
    decreases to - from,
{
    if from < to {
        assert(!(ms[from].start <= off < ms[from].end));
        lemma_match_skip(ms, off, from + 1, to);
    }
}

proof fn lemma_url_skip(us: Seq<NakedUrlView>, off: int, from: int, to: int)
    requires
        0 <= from <= to <= us.len(),
        forall|k: int|
            from <= k < to ==> !((#[trigger] us[k]).start <= off < us[k].end
                && us[k].github_ref is Some),
    ensures
        url_at(us, off, from) == url_at(us, off, to),
    decreases to - from,
{
    if from < to {
        assert(!(us[from].start <= off < us[from].end && us[from].github_ref is Some));
        lemma_url_skip(us, off, from + 1, to);
    }
}

/// The text holds no `*`, `_` or backtick.
pub open spec fn no_marks(s: Seq<char>) -> bool {
    forall|i: int| 0 <= i < s.len() ==> #[trigger] s[i] != '*' && s[i] != '_' && s[i] != '`'
}

/// Text in one color, with its attributes; none where it is empty.
pub open spec fn piece(
    text: Seq<char>,
    color: ThemeColor,
    bold: bool,
    italic: bool,
    mono: bool,
) -> SegView {
    SegView { text, color, bold, italic, mono }
}

proof fn lemma_title_skip(s: Seq<char>, i: int, j: int, plain: Seq<char>, color: ThemeColor)
    requires
        0 <= i <= j <= s.len(),
        forall|k: int| i <= k < j ==> #[trigger] s[k] != '*' && s[k] != '_' && s[k] != '`',
    ensures
        title_from(s, i, plain, color) == title_from(s, j, plain + s.subrange(i, j), color),
    decreases j - i,
{
    if i < j {
        lemma_title_skip(s, i + 1, j, plain.push(s[i]), color);
        assert(plain.push(s[i]) + s.subrange(i + 1, j) =~= plain + s.subrange(i, j));
    } else {
        assert(plain + s.subrange(i, j) =~= plain);
    }
}

proof fn lemma_close_single(s: Seq<char>, from: int, e: int, marker: char)
    requires
        0 <= from <= e <= s.len(),
        forall|k: int| from <= k < e ==> #[trigger] s[k] != marker,
    ensures
        e < s.len() && s[e] == marker ==> close_single(s, from, marker) == Some(e),
        e == s.len() ==> close_single(s, from, marker) is None,
    decreases e - from,
{
    if from < e {
        assert(s[from] != marker);
        lemma_close_single(s, from + 1, e, marker);
    }
}

proof fn lemma_close_double(s: Seq<char>, from: int, e: int, marker: char)
    requires
        0 <= from <= e,
        e + 1 < s.len(),
        forall|k: int| from <= k < e ==> #[trigger] s[k] != marker,
        s[e] == marker && s[e + 1] == marker,
    ensures
        close_double(s, from, marker) == Some(e),
    decreases e - from,
{
    if from < e {
        assert(s[from] != marker);
        lemma_close_double(s, from + 1, e, marker);
    }
}

/// A part of a title between two double stars is bold; one between two stars or underscores
/// is italic; one between backticks is code. The marks are left out, and the text before and
/// behind the part is plain. All of it has the color that was asked for.
pub proof fn law_marked_title(
    pre: Seq<char>,
    inner: Seq<char>,
    post: Seq<char>,
    mark: char,
    color: ThemeColor,
)
    requires
        no_marks(pre),
        no_marks(post),
        no_marks(inner),
        pre.len() > 0,
        inner.len() > 0,
        post.len() > 0,
        mark == '*' || mark == '_' || mark == '`',
    ensures
        title_segments(pre + seq![mark] + inner + seq![mark] + post, color) == seq![
            piece(pre, color, false, false, false),
            piece(inner, color, false, mark != '`', mark == '`'),
            piece(post, color, false, false, false),
        ],
        title_segments(pre + seq!['*', '*'] + inner + seq!['*', '*'] + post, color) == seq![
            piece(pre, color, false, false, false),
            piece(inner, color, true, false, false),
            piece(post, color, false, false, false),
        ],
{
    lemma_single_mark(pre, inner, post, mark, color);
    lemma_double_mark(pre, inner, post, color);
}

proof fn lemma_single_mark(
    pre: Seq<char>,
    inner: Seq<char>,
    post: Seq<char>,
    mark: char,
    color: ThemeColor,
)
    requires
        no_marks(pre),
        no_marks(post),
        no_marks(inner),
        pre.len() > 0,
        inner.len() > 0,
        post.len() > 0,
        mark == '*' || mark == '_' || mark == '`',
    ensures
        title_segments(pre + seq![mark] + inner + seq![mark] + post, color) == seq![
            piece(pre, color, false, false, false),
            piece(inner, color, false, mark != '`', mark == '`'),
            piece(post, color, false, false, false),
        ],
{
    let s = pre + seq![mark] + inner + seq![mark] + post;
    let a = pre.len() as int;
    let b = a + 1 + inner.len();
    let n = s.len() as int;
    assert forall|k: int| 0 <= k < a implies #[trigger] s[k] != '*' && s[k] != '_' && s[k] != '`' by {
        assert(s[k] == pre[k]);
    }
    lemma_title_skip(s, 0, a, seq![], color);
    assert(Seq::<char>::empty() + s.subrange(0, a) =~= pre);
    assert(s[a] == mark);
    assert forall|k: int| a + 1 <= k < b implies #[trigger] s[k] != mark by {
        assert(s[k] == inner[k - a - 1]);
    }
    assert(s[a + 1] == inner[0]);
    assert(inner[0] != '*');
    assert(s[b] == mark);
    lemma_close_single(s, a + 1, b, mark);
    assert(s.subrange(a + 1, b) =~= inner);
    assert forall|k: int| b + 1 <= k < n implies #[trigger] s[k] != '*' && s[k] != '_' && s[k]
        != '`' by {
        assert(s[k] == post[k - b - 1]);
    }
    lemma_title_skip(s, b + 1, n, seq![], color);
    assert(Seq::<char>::empty() + s.subrange(b + 1, n) =~= post);
    let mid = piece(inner, color, false, mark != '`', mark == '`');
    assert(part_at(s, a, color)->Some_0.seg == mid);
    assert(title_from(s, a, pre, color) =~= seq![
        piece(pre, color, false, false, false),
        mid,
        piece(post, color, false, false, false),
    ]);
}

proof fn lemma_double_mark(pre: Seq<char>, inner: Seq<char>, post: Seq<char>, color: ThemeColor)
    requires
        no_marks(pre),
        no_marks(post),
        no_marks(inner),
        pre.len() > 0,
        inner.len() > 0,
        post.len() > 0,
    ensures
        title_segments(pre + seq!['*', '*'] + inner + seq!['*', '*'] + post, color) == seq![
            piece(pre, color, false, false, false),
            piece(inner, color, true, false, false),
            piece(post, color, false, false, false),
        ],
{
    let s = pre + seq!['*', '*'] + inner + seq!['*', '*'] + post;
    let a = pre.len() as int;
    let b = a + 2 + inner.len();
    let n = s.len() as int;
    assert forall|k: int| 0 <= k < a implies #[trigger] s[k] != '*' && s[k] != '_' && s[k] != '`' by {
        assert(s[k] == pre[k]);
    }
    lemma_title_skip(s, 0, a, seq![], color);
    assert(Seq::<char>::empty() + s.subrange(0, a) =~= pre);
    assert(s[a] == '*' && s[a + 1] == '*');
    assert forall|k: int| a + 2 <= k < b implies #[trigger] s[k] != '*' by {
        assert(s[k] == inner[k - a - 2]);
    }
    assert(s[b] == '*' && s[b + 1] == '*');
    lemma_close_double(s, a + 2, b, '*');
    assert(s.subrange(a + 2, b) =~= inner);
    assert forall|k: int| b + 2 <= k < n implies #[trigger] s[k] != '*' && s[k] != '_' && s[k]
        != '`' by {
        assert(s[k] == post[k - b - 2]);
    }
    lemma_title_skip(s, b + 2, n, seq![], color);
    assert(Seq::<char>::empty() + s.subrange(b + 2, n) =~= post);
    let mid = piece(inner, color, true, false, false);
    assert(part_at(s, a, color)->Some_0.seg == mid);
    assert(title_from(s, a, pre, color) =~= seq![
        piece(pre, color, false, false, false),
        mid,
        piece(post, color, false, false, false),
    ]);
}

/// A mark that nothing closes is text like any other.
pub proof fn law_open_mark_is_text(
    pre: Seq<char>,
    post: Seq<char>,
    mark: char,
    color: ThemeColor,
)
    requires
        no_marks(pre),
        no_marks(post),
        mark == '*' || mark == '_' || mark == '`',
    ensures
        title_segments(pre + seq![mark] + post, color) == seq![
            piece(pre + seq![mark] + post, color, false, false, false),
        ],
{
    let s = pre + seq![mark] + post;
    let a = pre.len() as int;
    let n = s.len() as int;
    assert forall|k: int| 0 <= k < a implies #[trigger] s[k] != '*' && s[k] != '_' && s[k] != '`' by {
        assert(s[k] == pre[k]);
    }
    lemma_title_skip(s, 0, a, seq![], color);
    assert(Seq::<char>::empty() + s.subrange(0, a) =~= pre);
    assert(s[a] == mark);
    assert forall|k: int| a + 1 <= k < n implies #[trigger] s[k] != '*' && s[k] != '_' && s[k]
        != '`' by {
        assert(s[k] == post[k - a - 1]);
    }
    assert forall|k: int| a + 1 <= k < n implies #[trigger] s[k] != mark by {}
    lemma_close_single(s, a + 1, n, mark);
    if a + 1 < n {
        assert(s[a + 1] != '*');
    }
    assert(part_at(s, a, color) is None);
    lemma_title_skip(s, a + 1, n, pre.push(mark), color);
    assert(pre.push(mark) + s.subrange(a + 1, n) =~= s);
}

/// Each status of an issue or PR has its color.
pub proof fn law_status_colors()
    ensures
        spec_status_color(IssueStatus::Open) == ThemeColor::Green,
        spec_status_color(IssueStatus::Draft) == ThemeColor::Comment,
        spec_status_color(IssueStatus::Merged) == ThemeColor::Purple,
        spec_status_color(IssueStatus::Closed) == ThemeColor::Purple,
        spec_status_color(IssueStatus::ClosedNotPlanned) == ThemeColor::Red,
{
}

/// The line of an issue is its symbol in the color of its status, its number behind a `#`
/// and its title; that of a user is the login behind an `@` and the name, if there is one.
pub proof fn law_panel_lines(
    symbol: Seq<char>,
    number: u64,
    title: Seq<char>,
    status: IssueStatus,
    login: Seq<char>,
    name: Seq<char>,
)
    ensures
        issue_line(symbol, number, title, status) == seq![
            piece(symbol + seq![' '], spec_status_color(status), false, false, false),
            piece(
                seq!['#'] + decimal(number as nat) + seq![' '],
                ThemeColor::Cyan,
                false,
                false,
                false,
            ),
        ] + title_segments(title, ThemeColor::Foreground),
        user_line(login, None) == seq![
            piece(seq!['@'] + login, ThemeColor::Cyan, false, false, false),
        ],
        user_line(login, Some(name)) == seq![
            piece(seq!['@'] + login, ThemeColor::Cyan, false, false, false),
            piece(seq![' ', ' '] + name, ThemeColor::Comment, false, false, false),
        ],
{
    reveal_strlit(" ");
    reveal_strlit("  ");
    reveal_strlit("#");
    reveal_strlit("@");
    assert(" "@ =~= seq![' ']);
    assert("  "@ =~= seq![' ', ' ']);
    assert("#"@ =~= seq!['#']);
    assert("@"@ =~= seq!['@']);
    assert(user_line(login, None) =~= seq![
        piece(seq!['@'] + login, ThemeColor::Cyan, false, false, false),
    ]);
    assert(user_line(login, Some(name)) =~= seq![
        piece(seq!['@'] + login, ThemeColor::Cyan, false, false, false),
        piece(seq![' ', ' '] + name, ThemeColor::Comment, false, false, false),
    ]);
}

/// What the popover says of a reference in each state.
pub proof fn law_hover_lines(
    reference: RefView,
    state: Option<StateView>,
    context: Option<(Seq<char>, Seq<char>)>,
)
    ensures
        ({
            let r = hover_line(reference, state, context);
            let text = piece(reference.short_display(context), ThemeColor::Cyan, false, false, false);
            let glyph = |c: char, color: ThemeColor| piece(
                seq![c, ' '],
                color,
                false,
                false,
                false,
            );
            &&& state == Some(StateView::Valid(None)) ==> r == seq![
                glyph('✓', ThemeColor::Green),
                text,
            ]
            &&& state == Some(StateView::Invalid) ==> r == seq![glyph('✗', ThemeColor::Red), text]
            &&& state == Some(StateView::Pending) || state is None ==> r == seq![
                glyph('…', ThemeColor::Comment),
                text,
            ]
            &&& state matches Some(StateView::Valid(Some(RefDataView::Issue(i)))) ==> r
                == issue_line(i.symbol(), i.number, i.title, i.status())
            &&& state matches Some(StateView::Valid(Some(RefDataView::User(u)))) ==> r == user_line(
                u.login,
                u.name,
            )
        }),
{
    reveal_strlit("✓ ");
    reveal_strlit("✗ ");
    reveal_strlit("… ");
    assert("✓ "@ =~= seq!['✓', ' ']);
    assert("✗ "@ =~= seq!['✗', ' ']);
    assert("… "@ =~= seq!['…', ' ']);
}

/// A panel line is the texts of its segments one behind the other; each segment has a run
/// over its own text, with its color and attributes, and code is listed by its range.
pub proof fn law_segments_make_a_line(segs: Seq<SegView>, k: int)
    requires
        0 <= k < segs.len(),
    ensures
        ({
            let before = line_of_segments(segs, k);
            let after = line_of_segments(segs, k + 1);
            let s = segs[k];
            let from = encode_utf8(before.text).len();
            &&& after.text == before.text + s.text
            &&& after.runs.len() == k + 1
            &&& after.runs.drop_last() == before.runs
            &&& after.runs[k].start == from && after.runs[k].end == from + encode_utf8(s.text).len()
            &&& after.runs[k].color == s.color && after.runs[k].bold == s.bold
                && after.runs[k].italic == s.italic && after.runs[k].mono == s.mono
            &&& !after.runs[k].underline && !after.runs[k].strikethrough
            &&& s.mono ==> after.code == before.code.push(
                (after.runs[k].start, after.runs[k].end),
            )
            &&& !s.mono ==> after.code == before.code
            &&& line_of_segments(segs, 0).text.len() == 0
        }),
    decreases k,
{
    lemma_runs_len(segs, k);
    assert(line_of_segments(segs, k + 1).runs.drop_last() =~= line_of_segments(segs, k).runs);
}

proof fn lemma_runs_len(segs: Seq<SegView>, k: int)
    requires
        0 <= k,
    ensures
        line_of_segments(segs, k).runs.len() == k,
    decreases k,
{
    if k > 0 {
        lemma_runs_len(segs, k - 1);
    }
}

/// A suggestion is shown as what it suggests.
pub proof fn law_suggestion_lines(s: SuggestionView)
    ensures
        s matches SuggestionView::IssueOrPr { number, symbol, status, title } ==> suggestion_line(s)
            == issue_line(symbol, number, title, status),
        s matches SuggestionView::User { login, name } ==> suggestion_line(s) == user_line(
            login,
            name,
        ),
{
}

} // verus!
