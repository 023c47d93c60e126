//! What presses, clicks, moves and the wheel do.
use writ::frame::{Frame, FrameWork, Tick};
use writ::keys::Modifiers;
use writ::outline::HeadingInfo;
use writ::pointer::{
    after_jump, caret_after_click, click_count, find_after_press, fold_scope, hover_changed,
    pointer_moved, press, wheel_effects, Chevron, DocumentHit, FoldScope, MoveAction, OutlineHit,
    PressAction, PressContext, Zone,
};
use writ::refs::GitHubRef;
use writ::shell::{FieldFocus, FindMode, FindState};

const NO_MODS: Modifiers = Modifiers {
    shift: false,
    alt: false,
    control: false,
    super_key: false,
};

const NOTHING: PressContext = PressContext {
    mods: NO_MODS,
    find: None,
    zone: Zone::Document,
    on_all: false,
    on_replace: false,
    autocomplete_row: None,
    chevron: None,
    outline: OutlineHit::Outside,
    document: None,
};

const BAR: FindState = FindState {
    mode: FindMode::Replace,
    focus: FieldFocus::Search,
    focused: true,
};

fn headings() -> Vec<HeadingInfo> {
    vec![HeadingInfo {
        line: 4,
        level: 2,
        text: "Title".to_string(),
        byte_offset: 40,
    }]
}

fn hit(offset: usize) -> DocumentHit {
    DocumentHit { offset, is_link: false, checkbox: None }
}

#[test]
fn presses_on_the_document() {
    let click = |extend| PressAction::Click { offset: 7, extend };
    let on = |mods, document| press(PressContext { mods, document: Some(document), ..NOTHING }, &[]);
    let ctrl = Modifiers { control: true, ..NO_MODS };
    let shift = Modifiers { shift: true, ..NO_MODS };
    assert_eq!(on(NO_MODS, hit(7)), click(false));
    assert_eq!(on(shift, hit(7)), click(true));
    let link = DocumentHit { is_link: true, ..hit(7) };
    assert_eq!(on(NO_MODS, link), click(false));
    assert_eq!(on(ctrl, link), PressAction::OpenLink(7));
    let checkbox = DocumentHit { checkbox: Some(3), ..hit(7) };
    assert_eq!(on(NO_MODS, checkbox), PressAction::ToggleCheckbox(3));
    assert_eq!(press(NOTHING, &[]), PressAction::Ignored);
}

#[test]
fn presses_go_to_the_topmost_thing() {
    let all = PressContext {
        find: Some(BAR),
        zone: Zone::FindBar { lower_half: false },
        on_all: true,
        on_replace: true,
        autocomplete_row: Some(1),
        chevron: Some(Chevron { offset: 5, is_list: true }),
        outline: OutlineHit::Row(0),
        document: Some(hit(9)),
        ..NOTHING
    };
    assert_eq!(press(all, &headings()), PressAction::ReplaceAll);
    let cx = PressContext { on_all: false, ..all };
    assert_eq!(press(cx, &headings()), PressAction::ReplaceCurrent);
    let cx = PressContext { on_replace: false, ..cx };
    assert_eq!(press(cx, &headings()), PressAction::FocusFind);
    let cx = PressContext { find: None, ..cx };
    assert_eq!(press(cx, &headings()), PressAction::AcceptRow(1));
    let cx = PressContext { autocomplete_row: None, ..cx };
    let fold = PressAction::ToggleFold { offset: 5, is_list: true, scope: FoldScope::One };
    assert_eq!(press(cx, &headings()), fold);
    let cx = PressContext { chevron: None, ..cx };
    assert_eq!(press(cx, &headings()), PressAction::Jump(40));
    assert_eq!(press(cx, &[]), PressAction::OutlineStrip);
    let cx = PressContext { outline: OutlineHit::Strip, ..cx };
    assert_eq!(press(cx, &headings()), PressAction::OutlineStrip);
    let cx = PressContext { outline: OutlineHit::Outside, ..cx };
    assert_eq!(press(cx, &headings()), PressAction::Click { offset: 9, extend: false });
}

#[test]
fn chevron_scope_grows_with_modifiers() {
    let mods = |control, shift| Modifiers { control, shift, ..NO_MODS };
    assert_eq!(fold_scope(mods(false, false)), FoldScope::One);
    assert_eq!(fold_scope(mods(false, true)), FoldScope::Recursive);
    assert_eq!(fold_scope(mods(true, false)), FoldScope::Level);
    assert_eq!(fold_scope(mods(true, true)), FoldScope::LevelDeep);
}

#[test]
fn presses_move_the_find_bars_focus() {
    let after = |find, zone| find_after_press(Some(find), zone).unwrap();
    assert!(!after(BAR, Zone::Document).focused);
    assert_eq!(after(BAR, Zone::StatusBar), BAR);
    let lower = after(BAR, Zone::FindBar { lower_half: true });
    assert_eq!(lower.focus, FieldFocus::Replace);
    let find = FindState { mode: FindMode::Find, focused: false, ..BAR };
    let lower = after(find, Zone::FindBar { lower_half: true });
    assert_eq!(lower.focus, FieldFocus::Search);
    assert!(lower.focused);
    assert_eq!(find_after_press(None, Zone::FindBar { lower_half: true }), None);
}

#[test]
fn clicks_count_to_three() {
    assert_eq!(click_count(0, None, true), 1);
    assert_eq!(click_count(1, Some(400), true), 2);
    assert_eq!(click_count(2, Some(0), true), 3);
    assert_eq!(click_count(3, Some(10), true), 1);
    assert_eq!(click_count(2, Some(401), true), 1);
    assert_eq!(click_count(2, Some(10), false), 1);
}

#[test]
fn moves_drag_select_or_hover() {
    assert_eq!(pointer_moved(true, true, Some(2)), MoveAction::Drag);
    assert_eq!(pointer_moved(false, true, Some(2)), MoveAction::SelectRow(2));
    assert_eq!(pointer_moved(false, true, None), MoveAction::Ignored);
    assert_eq!(pointer_moved(false, false, None), MoveAction::Hover);
}

#[test]
fn hover_changes_with_the_reference() {
    let user = |name: &str| GitHubRef::User { username: name.to_string() };
    let (a, b) = (user("a"), user("b"));
    assert!(!hover_changed(Some(&a), Some(&user("a"))));
    assert!(hover_changed(Some(&a), Some(&b)));
    assert!(hover_changed(Some(&a), None));
    assert!(!hover_changed(None, None));
}

#[test]
fn presses_have_effects() {
    let click = PressAction::Click { offset: 7, extend: false }.effects(false, false);
    assert!(click.refresh && click.load_images && click.autocomplete && click.redraw);
    assert!(!click.after_edit && !click.rebuild && !click.pin);
    let jump = PressAction::Jump(40);
    assert!(jump.effects(false, true).rebuild && jump.effects(false, true).pin);
    assert!(!jump.effects(false, false).rebuild);
    let accept = PressAction::AcceptRow(1);
    assert!(accept.effects(true, false).after_edit && accept.effects(true, false).rescan);
    assert_eq!(accept.effects(false, false), PressAction::Ignored.effects(false, false));
    assert!(PressAction::ReplaceAll.effects(false, false).after_edit);
    assert!(PressAction::ReplaceCurrent.effects(false, false).rescan);
    assert!(!click.rescan);
    assert!(PressAction::ToggleCheckbox(3).effects(false, false).refresh);
    let fold = PressAction::ToggleFold { offset: 9, is_list: false, scope: FoldScope::One };
    assert!(fold.effects(false, false).rebuild);
    assert!(PressAction::FocusFind.effects(false, false).redraw);
    assert!(!PressAction::OpenLink(7).effects(false, false).redraw);
}

#[test]
fn a_frame_does_marked_work_once() {
    let idle = FrameWork { extend_selection: false, rebuild: false };
    let mut frame = Frame::new();
    frame.moved(true);
    assert_eq!(frame.redraw(), idle);
    frame.pressed();
    frame.moved(false);
    frame.moved(true);
    frame.work_finished(true);
    frame.work_finished(true);
    frame.released();
    assert_eq!(frame.redraw(), FrameWork { extend_selection: true, rebuild: true });
    assert_eq!(frame.redraw(), idle);
    frame.work_finished(false);
    assert_eq!(frame.redraw(), idle);
}

#[test]
fn a_drag_at_an_edge_scrolls_by_the_clock() {
    let mut frame = Frame::new();
    let mut last = None;
    assert_eq!(frame.about_to_wait(100, &mut last), Tick::Wait);
    frame.pressed();
    frame.moved(true);
    assert_eq!(frame.about_to_wait(110, &mut last), Tick::Scroll { elapsed: 0 });
    assert_eq!(frame.about_to_wait(126, &mut last), Tick::Scroll { elapsed: 16 });
    frame.moved(false);
    assert_eq!(frame.about_to_wait(140, &mut last), Tick::Wait);
    assert_eq!(last, None);
    frame.moved(true);
    assert_eq!(frame.about_to_wait(150, &mut last), Tick::Scroll { elapsed: 0 });
    frame.released();
    assert_eq!(frame.about_to_wait(160, &mut last), Tick::Wait);
}

#[test]
fn a_click_on_an_image_lands_in_its_revealed_row() {
    assert_eq!(caret_after_click(true, Some(17)), Some(17));
    assert_eq!(caret_after_click(true, None), None);
    assert_eq!(caret_after_click(false, Some(17)), None);
}

#[test]
fn the_wheel_lays_out_what_is_only_estimated() {
    let e = wheel_effects(Some(true));
    assert!(e.drop_hover && e.rebuild && e.load_images && e.validate && e.redraw);
    let e = wheel_effects(Some(false));
    assert!(e.drop_hover && !e.rebuild && !e.load_images && e.validate && e.redraw);
    let e = wheel_effects(None);
    assert!(e.drop_hover && !e.rebuild && !e.load_images && e.validate && !e.redraw);
}

#[test]
fn a_jump_to_estimated_lines_pins_twice() {
    let e = after_jump(true);
    assert!(e.rebuild && e.pin && !e.refresh && !e.after_edit && !e.redraw);
    assert_eq!(after_jump(false), PressAction::Ignored.effects(false, false));
}
