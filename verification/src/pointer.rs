//! The pointer's decisions: what a press, a move, a repeated click or the wheel does. Hit tests in
//! pixels are made before; these functions take their outcomes.
use crate::keys::Modifiers;
use crate::outline::HeadingInfo;
use crate::refs::{GitHubRef, RefView};
use crate::shell::{FieldFocus, FindMode, FindState};
use vstd::prelude::*;

verus! {

// ---------------------------------------------------------------------------
// Presses
// ---------------------------------------------------------------------------

/// The strip of the window that was pressed, from top to bottom. The find bar is docked
/// between the document and the status bar.
#[derive(Debug, Clone, Copy, PartialEq, Eq, Structural)]
pub enum Zone {
    Document,
    FindBar { lower_half: bool },
    StatusBar,
}

/// A fold chevron in the gutter, by the offset of its heading or list item.
#[derive(Debug, Clone, Copy, PartialEq, Eq, Structural)]
pub struct Chevron {
    pub offset: usize,
    pub is_list: bool,
}

/// What the outline panel has under the pointer.
#[derive(Debug, Clone, Copy, PartialEq, Eq, Structural)]
pub enum OutlineHit {
    /// The panel is closed, or the pointer is outside it.
    Outside,
    /// The panel, but no row.
    Strip,
    Row(usize),
}

/// What the document has under the pointer.
#[derive(Debug, Clone, Copy, PartialEq)]
pub struct DocumentHit {
    pub offset: usize,
    /// A markdown link, naked URL or GitHub reference is there.
    pub is_link: bool,
    /// The line of the checkbox that is there.
    pub checkbox: Option<usize>,
}

/// What a press meets.
#[derive(Debug, Clone, Copy, PartialEq)]
pub struct PressContext {
    pub mods: Modifiers,
    /// The find bar, while it is open.
    pub find: Option<FindState>,
    pub zone: Zone,
    /// The pointer is on the find bar's All or Replace button.
    pub on_all: bool,
    pub on_replace: bool,
    /// The row of the open autocomplete popup under the pointer.
    pub autocomplete_row: Option<usize>,
    pub chevron: Option<Chevron>,
    pub outline: OutlineHit,
    pub document: Option<DocumentHit>,
}

/// How much a click on a chevron folds.
#[derive(Debug, Clone, Copy, PartialEq, Eq, Structural)]
pub enum FoldScope {
    One,
    /// This one and everything nested.
    Recursive,
    /// All at this heading level or list depth.
    Level,
    /// All at this heading level or list depth, and everything nested.
    LevelDeep,
}

/// What a press does.
#[derive(Debug, Clone, Copy, PartialEq, Eq, Structural)]
pub enum PressAction {
    ReplaceAll,
    ReplaceCurrent,
    /// The find bar is drawn anew with its focus.
    FocusFind,
    AcceptRow(usize),
    ToggleFold { offset: usize, is_list: bool, scope: FoldScope },
    /// The document scrolls to a heading and the cursor goes there.
    Jump(usize),
    /// The press was on the outline panel, beside its rows.
    OutlineStrip,
    OpenLink(usize),
    /// The checkbox of a line is toggled, and the caret stays.
    ToggleCheckbox(usize),
    Click { offset: usize, extend: bool },
    Ignored,
}

/// Modifier-clicks escalate the scope: Ctrl = breadth, Shift = depth, both = both.
pub open spec fn scope_of(mods: Modifiers) -> FoldScope {
    match (mods.command(), mods.shift) {
        (true, true) => FoldScope::LevelDeep,
        (true, false) => FoldScope::Level,
        (false, true) => FoldScope::Recursive,
        (false, false) => FoldScope::One,
    }
}

/// How much a click on a chevron folds.
pub fn fold_scope(mods: Modifiers) -> (r: FoldScope)
    ensures
        r == scope_of(mods),
{
    if mods.is_command() {
        if mods.shift {
            FoldScope::LevelDeep
        } else {
            FoldScope::Level
        }
    } else if mods.shift {
        FoldScope::Recursive
    } else {
        FoldScope::One
    }
}

/// The find bar after a press: the document takes the focus away, the bar takes it and
/// picks the field by row, the status bar leaves it.
pub open spec fn find_after(find: Option<FindState>, zone: Zone) -> Option<FindState> {
    match (find, zone) {
        (Some(f), Zone::Document) => Some(FindState { focused: false, ..f }),
        (Some(f), Zone::FindBar { lower_half }) => Some(
            FindState {
                focused: true,
                focus: if f.mode is Replace && lower_half {
                    FieldFocus::Replace
                } else {
                    FieldFocus::Search
                },
                ..f
            },
        ),
        _ => find,
    }
}

/// The find bar after a press. A click in the bar focuses it and picks the field by row: in
/// Replace mode the lower half is the replace field. A click in the document unfocuses it.
pub fn find_after_press(find: Option<FindState>, zone: Zone) -> (r: Option<FindState>)
    ensures
        r == find_after(find, zone),
{
    match find {
        Some(f) => match zone {
            Zone::Document => Some(FindState { mode: f.mode, focus: f.focus, focused: false }),
            Zone::FindBar { lower_half } => {
                let focus = if matches!(f.mode, FindMode::Replace) && lower_half {
                    FieldFocus::Replace
                } else {
                    FieldFocus::Search
                };
                Some(FindState { mode: f.mode, focus, focused: true })
            },
            Zone::StatusBar => Some(f),
        },
        None => None,
    }
}

/// What a press on the document does.
pub open spec fn document_press(hit: DocumentHit, mods: Modifiers) -> PressAction {
    if mods.command() && hit.is_link {
        PressAction::OpenLink(hit.offset)
    } else if hit.checkbox is Some {
        PressAction::ToggleCheckbox(hit.checkbox->0)
    } else {
        PressAction::Click { offset: hit.offset, extend: mods.shift }
    }
}

/// What a press does.
pub open spec fn press_of(cx: PressContext, headings: Seq<HeadingInfo>) -> PressAction {
    if cx.on_all {
        PressAction::ReplaceAll
    } else if cx.on_replace {
        PressAction::ReplaceCurrent
    } else if cx.find is Some && cx.zone is FindBar {
        PressAction::FocusFind
    } else if cx.autocomplete_row is Some {
        PressAction::AcceptRow(cx.autocomplete_row->0)
    } else if cx.chevron is Some {
        PressAction::ToggleFold {
            offset: (cx.chevron->0).offset,
            is_list: (cx.chevron->0).is_list,
            scope: scope_of(cx.mods),
        }
    } else if cx.outline !is Outside {
        match cx.outline {
            OutlineHit::Row(i) => if i < headings.len() {
                PressAction::Jump(headings[i as int].byte_offset)
            } else {
                PressAction::OutlineStrip
            },
            _ => PressAction::OutlineStrip,
        }
    } else {
        match cx.document {
            Some(hit) => document_press(hit, cx.mods),
            None => PressAction::Ignored,
        }
    }
}

fn press_on_document(hit: DocumentHit, mods: Modifiers) -> (r: PressAction)
    ensures
        r == document_press(hit, mods),
{
    // Ctrl/Cmd-click on a link opens it in the browser instead of placing the caret.
    if mods.is_command() && hit.is_link {
        return PressAction::OpenLink(hit.offset);
    }
    match hit.checkbox {
        Some(line) => PressAction::ToggleCheckbox(line),
        None => PressAction::Click { offset: hit.offset, extend: mods.shift },
    }
}

/// What a press of the left button does. The find bar's buttons come first, then the bar
/// itself, an autocomplete row, a fold chevron, the outline panel and the document.
pub fn press(cx: PressContext, headings: &[HeadingInfo]) -> (r: PressAction)
    ensures
        r == press_of(cx, headings@),
{
    if cx.on_all {
        return PressAction::ReplaceAll;
    }
    if cx.on_replace {
        return PressAction::ReplaceCurrent;
    }
    if cx.find.is_some() && matches!(cx.zone, Zone::FindBar { lower_half: _ }) {
        return PressAction::FocusFind;
    }
    match cx.autocomplete_row {
        Some(row) => {
            return PressAction::AcceptRow(row);
        },
        None => {},
    }
    match cx.chevron {
        Some(c) => {
            return PressAction::ToggleFold {
                offset: c.offset,
                is_list: c.is_list,
                scope: fold_scope(cx.mods),
            };
        },
        None => {},
    }
    match cx.outline {
        OutlineHit::Row(i) => {
            if i < headings.len() {
                return PressAction::Jump(headings[i].byte_offset);
            }
            return PressAction::OutlineStrip;
        },
        OutlineHit::Strip => {
            return PressAction::OutlineStrip;
        },
        OutlineHit::Outside => {},
    }
    match cx.document {
        Some(hit) => press_on_document(hit, cx.mods),
        None => PressAction::Ignored,
    }
}

/// A press in the open find bar neither moves the caret nor toggles anything in the
/// document: it replaces matches or focuses the bar.
pub proof fn law_find_bar_keeps_presses(cx: PressContext, headings: Seq<HeadingInfo>)
    requires
        cx.find is Some,
        cx.zone is FindBar,
    ensures
        press_of(cx, headings) is ReplaceAll || press_of(cx, headings) is ReplaceCurrent
            || press_of(cx, headings) is FocusFind,
        (find_after(cx.find, cx.zone)->0).focused,
{
}

/// A press outside the find bar opens or closes nothing of it: its mode stays, and so does
/// its field.
pub proof fn law_presses_keep_find_mode(find: Option<FindState>, zone: Zone)
    ensures
        (find_after(find, zone) is Some) == (find is Some),
        find is Some ==> (find_after(find, zone)->0).mode == (find->0).mode,
        find is Some && zone !is FindBar ==> (find_after(find, zone)->0).focus == (find->0).focus,
{
}

/// The work that follows a press.
#[derive(Debug, Clone, Copy, PartialEq, Eq, Structural)]
pub struct PressEffects {
    /// Where the find bar is open, its matches are searched anew, before anything else.
    pub rescan: bool,
    /// The flow that every edit runs behind the search.
    pub after_edit: bool,
    /// The document is laid out anew, where it is scrolled.
    pub rebuild: bool,
    /// The document is laid out anew round the cursor.
    pub refresh: bool,
    /// The line of the cursor goes to the top; [`after_jump`] says what follows that.
    pub pin: bool,
    pub load_images: bool,
    /// The autocomplete popup is brought up to date with the cursor.
    pub autocomplete: bool,
    pub redraw: bool,
}

/// Nothing follows.
pub open spec fn no_press_effects() -> PressEffects {
    PressEffects {
        rescan: false,
        after_edit: false,
        rebuild: false,
        refresh: false,
        pin: false,
        load_images: false,
        autocomplete: false,
        redraw: false,
    }
}

/// A redraw follows.
pub open spec fn press_redrawn() -> PressEffects {
    PressEffects { redraw: true, ..no_press_effects() }
}

/// What follows a press. `accepted` says that a suggestion was put in, `revealed` that the
/// cursor came out of a folded section.
pub open spec fn press_effects(a: PressAction, accepted: bool, revealed: bool) -> PressEffects {
    match a {
        PressAction::ReplaceAll | PressAction::ReplaceCurrent => PressEffects {
            rescan: true,
            after_edit: true,
            ..press_redrawn()
        },
        PressAction::AcceptRow(_) => if accepted {
            PressEffects { rescan: true, after_edit: true, ..press_redrawn() }
        } else {
            no_press_effects()
        },
        PressAction::FocusFind | PressAction::OutlineStrip => press_redrawn(),
        PressAction::ToggleFold { .. } => PressEffects { rebuild: true, ..press_redrawn() },
        PressAction::Jump(_) => PressEffects {
            rebuild: revealed,
            pin: true,
            load_images: true,
            ..press_redrawn()
        },
        PressAction::ToggleCheckbox(_) => PressEffects { refresh: true, ..press_redrawn() },
        PressAction::Click { .. } => PressEffects {
            refresh: true,
            load_images: true,
            autocomplete: true,
            ..press_redrawn()
        },
        PressAction::OpenLink(_) | PressAction::Ignored => no_press_effects(),
    }
}

impl PressAction {
    /// What follows the press. `accepted` says that a suggestion was put in, `revealed` that
    /// the cursor came out of a folded section.
    pub fn effects(self, accepted: bool, revealed: bool) -> (r: PressEffects)
        ensures
            r == press_effects(self, accepted, revealed),
    {
        let mut e = PressEffects {
            rescan: false,
            after_edit: false,
            rebuild: false,
            refresh: false,
            pin: false,
            load_images: false,
            autocomplete: false,
            redraw: false,
        };
        match self {
            PressAction::OpenLink(_) | PressAction::Ignored => {
                return e;
            },
            PressAction::AcceptRow(_) => {
                if !accepted {
                    return e;
                }
                e.rescan = true;
                e.after_edit = true;
            },
            PressAction::ReplaceAll | PressAction::ReplaceCurrent => {
                e.rescan = true;
                e.after_edit = true;
            },
            PressAction::ToggleFold { offset: _, is_list: _, scope: _ } => {
                e.rebuild = true;
            },
            PressAction::Jump(_) => {
                e.rebuild = revealed;
                e.pin = true;
                e.load_images = true;
            },
            PressAction::ToggleCheckbox(_) => {
                e.refresh = true;
            },
            PressAction::Click { offset: _, extend: _ } => {
                e.refresh = true;
                e.load_images = true;
                e.autocomplete = true;
            },
            PressAction::FocusFind | PressAction::OutlineStrip => {},
        }
        e.redraw = true;
        e
    }
}

/// What follows once a jump has put the line of its heading at the top. Where that shows
/// lines whose height is only estimated (`needs_remeasure`), the document is laid out anew
/// where it now is scrolled, and the line is put at the top again; images are loaded and the
/// window is drawn after that.
pub fn after_jump(needs_remeasure: bool) -> (r: PressEffects)
    ensures
        r == (PressEffects {
            rebuild: needs_remeasure,
            pin: needs_remeasure,
            ..no_press_effects()
        }),
{
    PressEffects {
        rescan: false,
        after_edit: false,
        rebuild: needs_remeasure,
        refresh: false,
        pin: needs_remeasure,
        load_images: false,
        autocomplete: false,
        redraw: false,
    }
}

/// A press that edits the document has the find matches searched anew.
pub proof fn law_press_edits_rescan(a: PressAction, accepted: bool, revealed: bool)
    ensures
        press_effects(a, accepted, revealed).after_edit == press_effects(
            a,
            accepted,
            revealed,
        ).rescan,
        press_effects(a, accepted, revealed).after_edit ==> press_effects(
            a,
            accepted,
            revealed,
        ).redraw,
{
}

// ---------------------------------------------------------------------------
// Clicks on images
// ---------------------------------------------------------------------------

/// Where the caret is put once the document was laid out after a click, with nothing
/// selected; `None` where it stays as the click left it.
///
/// A click on an image block hits the start of its line, for the image has no text, and
/// reveals the raw markdown of the line in a row that need not be under the pointer. So where
/// the clicked line showed an image before the click (`was_image`), the caret goes to the
/// offset at the clicked x of the revealed row (`at_x`), where the line has one.
pub fn caret_after_click(was_image: bool, at_x: Option<usize>) -> (r: Option<usize>)
    ensures
        was_image ==> r == at_x,
        !was_image ==> r is None,
{
    if was_image {
        at_x
    } else {
        None
    }
}

// ---------------------------------------------------------------------------
// The wheel
// ---------------------------------------------------------------------------

/// The work that follows a step of the wheel.
#[derive(Debug, Clone, Copy, PartialEq, Eq, Structural)]
pub struct WheelEffects {
    /// The hover target is dropped: where it was anchored has moved.
    pub drop_hover: bool,
    /// The document is laid out anew, where it is scrolled.
    pub rebuild: bool,
    /// The images that were scrolled into what is laid out are loaded.
    pub load_images: bool,
    /// References in view of which nothing is known are validated.
    pub validate: bool,
    pub redraw: bool,
}

/// What follows a step of the wheel. `needs_remeasure` says of the document, where there is
/// one, that it now shows lines whose height is only estimated.
pub open spec fn wheel_effects_of(needs_remeasure: Option<bool>) -> WheelEffects {
    WheelEffects {
        drop_hover: true,
        rebuild: needs_remeasure == Some(true),
        load_images: needs_remeasure == Some(true),
        validate: true,
        redraw: needs_remeasure is Some,
    }
}

/// What follows a step of the wheel. `needs_remeasure` says of the document, where there is
/// one, that it now shows lines whose height is only estimated: these are laid out, and the
/// images among them loaded. The references in view change with the scroll position alone.
pub fn wheel_effects(needs_remeasure: Option<bool>) -> (r: WheelEffects)
    ensures
        r == wheel_effects_of(needs_remeasure),
{
    let remeasure = match needs_remeasure {
        Some(needs) => needs,
        None => false,
    };
    WheelEffects {
        drop_hover: true,
        rebuild: remeasure,
        load_images: remeasure,
        validate: true,
        redraw: needs_remeasure.is_some(),
    }
}

// ---------------------------------------------------------------------------
// Repeated clicks
// ---------------------------------------------------------------------------

/// Max gap between presses, in milliseconds, still counted as a repeated click.
pub const MULTI_CLICK_MS: u64 = 400;

/// The click count after another click.
pub open spec fn counted(count: int, repeat: bool) -> int {
    if repeat {
        count % 3 + 1
    } else {
        1
    }
}

/// The click count after another click: within the time and distance thresholds it cycles
/// 1→2→3→1 (double = word, triple = line select), else it restarts at 1. `elapsed` is the
/// time since the last click, if there was one, and `near` says that it was close by.
pub fn click_count(count: usize, elapsed: Option<u64>, near: bool) -> (r: usize)
    ensures
        r == counted(
            count as int,
            elapsed is Some && elapsed->0 <= MULTI_CLICK_MS && near,
        ),
        1 <= r <= 3,
{
    let repeat = match elapsed {
        Some(ms) => ms <= MULTI_CLICK_MS && near,
        None => false,
    };
    if repeat {
        count % 3 + 1
    } else {
        1
    }
}

/// Quick clicks at one place count 1, 2, 3 and then start over.
pub proof fn law_clicks_cycle(count: int)
    requires
        1 <= count <= 3,
    ensures
        counted(counted(counted(count, true), true), true) == count,
        counted(count, true) != count,
{
}

// ---------------------------------------------------------------------------
// Moves
// ---------------------------------------------------------------------------

/// What a move of the pointer does, beside the hover of the outline and of the gutter.
#[derive(Debug, Clone, Copy, PartialEq, Eq, Structural)]
pub enum MoveAction {
    /// The next redraw extends the selection.
    Drag,
    /// The highlighted row of the autocomplete popup follows the pointer.
    SelectRow(usize),
    /// The hovered reference is looked up.
    Hover,
    Ignored,
}

/// What a move of the pointer does: a drag comes first, then the open autocomplete popup.
pub fn pointer_moved(mouse_down: bool, popup_open: bool, row: Option<usize>) -> (r: MoveAction)
    ensures
        r == (if mouse_down {
            MoveAction::Drag
        } else if !popup_open {
            MoveAction::Hover
        } else if row is Some {
            MoveAction::SelectRow(row->0)
        } else {
            MoveAction::Ignored
        }),
{
    if mouse_down {
        return MoveAction::Drag;
    }
    if !popup_open {
        return MoveAction::Hover;
    }
    match row {
        Some(i) => MoveAction::SelectRow(i),
        None => MoveAction::Ignored,
    }
}

/// A reference under the pointer, if any.
pub open spec fn hovered_view(r: Option<&GitHubRef>) -> Option<RefView> {
    match r {
        Some(r) => Some(r@),
        None => None,
    }
}

/// Whether the hovered reference is another one, so that the popover is drawn anew.
pub fn hover_changed(before: Option<&GitHubRef>, after: Option<&GitHubRef>) -> (r: bool)
    ensures
        r == (hovered_view(before) != hovered_view(after)),
{
    match (before, after) {
        (Some(a), Some(b)) => !a.same(b),
        (None, None) => false,
        _ => true,
    }
}

/// What a press meets first decides: the buttons of the find bar, the bar, a row of the
/// popup, a chevron, the outline, the document.
pub proof fn law_press_order(cx: PressContext, headings: Seq<HeadingInfo>)
    ensures
        ({
            let r = press_of(cx, headings);
            let bar = cx.find is Some && cx.zone is FindBar;
            let above = cx.on_all || cx.on_replace || bar;
            let popup = cx.autocomplete_row is Some;
            &&& cx.on_all ==> r == PressAction::ReplaceAll
            &&& cx.on_replace && !cx.on_all ==> r == PressAction::ReplaceCurrent
            &&& bar && !cx.on_all && !cx.on_replace ==> r == PressAction::FocusFind
            &&& !above && popup ==> r == PressAction::AcceptRow(cx.autocomplete_row->0)
            &&& !above && !popup && cx.chevron is Some ==> r is ToggleFold && r->ToggleFold_offset
                == (cx.chevron->0).offset && r->is_list == (cx.chevron->0).is_list
            &&& !above && !popup && cx.chevron is None && cx.outline is Strip ==> r
                == PressAction::OutlineStrip
            &&& !above && !popup && cx.chevron is None && (cx.outline matches OutlineHit::Row(i)
                && i < headings.len()) ==> r == PressAction::Jump(
                headings[cx.outline->Row_0 as int].byte_offset,
            )
            &&& !above && !popup && cx.chevron is None && (cx.outline matches OutlineHit::Row(i)
                && i >= headings.len()) ==> r == PressAction::OutlineStrip
            &&& !above && !popup && cx.chevron is None && cx.outline is Outside
                && cx.document is None ==> r == PressAction::Ignored
            &&& !above && !popup && cx.chevron is None && cx.outline is Outside
                && cx.document is Some ==> {
                let hit = cx.document->0;
                let follow = (cx.mods.control || cx.mods.super_key) && hit.is_link;
                &&& follow ==> r == PressAction::OpenLink(hit.offset)
                &&& !follow && hit.checkbox is Some ==> r == PressAction::ToggleCheckbox(
                    hit.checkbox->0,
                )
                &&& !follow && hit.checkbox is None ==> r == (PressAction::Click {
                    offset: hit.offset,
                    extend: cx.mods.shift,
                })
            }
        }),
{
}

/// A click on a chevron folds one section; with Shift also what is nested in it; with Ctrl or
/// Super all of its level; with both all of its level and what is nested in them.
pub proof fn law_fold_scopes(cx: PressContext, headings: Seq<HeadingInfo>)
    requires
        press_of(cx, headings) is ToggleFold,
    ensures
        ({
            let scope = press_of(cx, headings)->scope;
            let cmd = cx.mods.control || cx.mods.super_key;
            &&& !cmd && !cx.mods.shift ==> scope == FoldScope::One
            &&& !cmd && cx.mods.shift ==> scope == FoldScope::Recursive
            &&& cmd && !cx.mods.shift ==> scope == FoldScope::Level
            &&& cmd && cx.mods.shift ==> scope == FoldScope::LevelDeep
        }),
{
}

/// A press in the find bar focuses it: in Replace mode its lower half is the replace field,
/// and everything else the search field. A press in the document takes the focus away, and
/// one in the status bar leaves it.
pub proof fn law_find_focus(f: FindState, zone: Zone)
    ensures
        ({
            let r = find_after(Some(f), zone)->0;
            &&& zone is Document ==> !r.focused && r.focus == f.focus && r.mode == f.mode
            &&& zone is StatusBar ==> r == f
            &&& zone == (Zone::FindBar { lower_half: true }) && f.mode is Replace ==> r.focused
                && r.focus is Replace && r.mode == f.mode
            &&& zone == (Zone::FindBar { lower_half: true }) && f.mode is Find ==> r.focused
                && r.focus is Search && r.mode == f.mode
            &&& zone == (Zone::FindBar { lower_half: false }) ==> r.focused && r.focus is Search
                && r.mode == f.mode
            &&& find_after(None, zone) is None
        }),
{
}

/// What each press has follow.
pub proof fn law_press_effects(a: PressAction, accepted: bool, revealed: bool)
    ensures
        ({
            let e = press_effects(a, accepted, revealed);
            let idle = a is OpenLink || a is Ignored || (a is AcceptRow && !accepted);
            let edits = a is ReplaceAll || a is ReplaceCurrent || (a is AcceptRow && accepted);
            &&& e.redraw == !idle
            &&& e.after_edit == edits
            &&& e.rebuild == (a is ToggleFold || (a is Jump && revealed))
            &&& e.refresh == (a is ToggleCheckbox || a is Click)
            &&& e.pin == (a is Jump)
            &&& e.load_images == (a is Jump || a is Click)
            &&& e.autocomplete == (a is Click)
        }),
{
}

/// A step of the wheel drops the hover target and has references validated in any case; what
/// is only estimated is laid out and its images loaded; the window is drawn where there is a
/// document.
pub proof fn law_wheel(needs_remeasure: Option<bool>)
    ensures
        ({
            let e = wheel_effects_of(needs_remeasure);
            &&& e.drop_hover && e.validate
            &&& needs_remeasure is None ==> !e.rebuild && !e.load_images && !e.redraw
            &&& needs_remeasure == Some(false) ==> !e.rebuild && !e.load_images && e.redraw
            &&& needs_remeasure == Some(true) ==> e.rebuild && e.load_images && e.redraw
        }),
{
}

/// Clicks are counted 1, 2, 3 and then from 1; one that comes late or is elsewhere is the
/// first again. Late is after more than four tenths of a second.
pub proof fn law_click_counts()
    ensures
        counted(1, true) == 2,
        counted(2, true) == 3,
        counted(3, true) == 1,
        forall|n: int| #[trigger] counted(n, false) == 1,
        MULTI_CLICK_MS == 400,
{
}

} // verus!
