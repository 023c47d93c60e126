//! What keys, input methods and wakeups do.
use writ::keys::{Key, KeyPress, Modifiers, NamedKey, PhysicalKey};
use writ::shell::{
    apply_key, completion, edit_effects, fold_command, fold_level_key, ime_action, key_action,
    user_event, Command, Completion, Direction, Edit, FieldFocus, FindMode, FindState, FoldCommand,
    ImeAction, ImeEvent, KeyAction, KeyContext, WritEvent, PAGE_LINES,
};

const NO_MODS: Modifiers = Modifiers {
    shift: false,
    alt: false,
    control: false,
    super_key: false,
};

const SHIFT: Modifiers = Modifiers { shift: true, ..NO_MODS };
const ALT: Modifiers = Modifiers { alt: true, ..NO_MODS };
const CTRL: Modifiers = Modifiers { control: true, ..NO_MODS };
const CMD: Modifiers = Modifiers { super_key: true, ..NO_MODS };
const CTRL_SHIFT: Modifiers = Modifiers { shift: true, ..CTRL };
const CTRL_ALT: Modifiers = Modifiers { alt: true, ..CTRL };

fn named(key: NamedKey) -> KeyPress {
    KeyPress {
        logical_key: Key::Named(key),
        physical_key: PhysicalKey::Other,
        text: None,
    }
}

fn typing(text: &str) -> KeyPress {
    KeyPress {
        logical_key: Key::Character(text.to_string()),
        physical_key: PhysicalKey::Other,
        text: Some(text.to_string()),
    }
}

fn at(physical_key: PhysicalKey) -> KeyPress {
    KeyPress { physical_key, ..typing("{") }
}

fn context(mods: Modifiers) -> KeyContext {
    KeyContext {
        mods,
        find: None,
        has_selection: false,
        autocomplete: None,
        in_code_block: false,
    }
}

fn bar(mode: FindMode, focus: FieldFocus, focused: bool) -> Option<FindState> {
    Some(FindState { mode, focus, focused })
}

fn command(press: KeyPress, cx: KeyContext) -> Option<Command> {
    match key_action(&press, cx) {
        KeyAction::Command(c) => Some(c),
        _ => None,
    }
}

fn inserted(text: &str, completion: Completion) -> Option<Edit> {
    Some(Edit::Insert { text: text.to_string(), completion })
}

fn moved(direction: Direction, extend: bool, times: usize) -> Option<Edit> {
    Some(Edit::Move { direction, extend, times })
}

#[test]
fn enter_has_three_forms() {
    let both = Modifiers { alt: true, ..SHIFT };
    let enter = named(NamedKey::Enter);
    assert_eq!(apply_key(&enter, NO_MODS, false), Some(Edit::Enter));
    assert_eq!(apply_key(&enter, SHIFT, false), Some(Edit::ShiftEnter));
    assert_eq!(apply_key(&enter, both, false), Some(Edit::ShiftAltEnter));
    assert_eq!(apply_key(&enter, ALT, false), Some(Edit::Enter));
}

#[test]
fn tab_indents_in_code() {
    let tab = named(NamedKey::Tab);
    assert_eq!(apply_key(&tab, NO_MODS, false), Some(Edit::Tab));
    assert_eq!(apply_key(&tab, SHIFT, false), Some(Edit::ShiftTab));
    assert_eq!(apply_key(&tab, NO_MODS, true), inserted("    ", Completion::Nothing));
    assert_eq!(apply_key(&tab, SHIFT, true), Some(Edit::ShiftTab));
}

#[test]
fn keys_move_the_cursor() {
    let press = |k, mods| apply_key(&named(k), mods, false);
    assert_eq!(press(NamedKey::ArrowLeft, NO_MODS), moved(Direction::Left, false, 1));
    assert_eq!(press(NamedKey::ArrowDown, SHIFT), moved(Direction::Down, true, 1));
    assert_eq!(press(NamedKey::Home, NO_MODS), moved(Direction::LineStart, false, 1));
    assert_eq!(press(NamedKey::Home, CTRL), moved(Direction::DocStart, false, 1));
    assert_eq!(press(NamedKey::End, CMD), moved(Direction::DocEnd, false, 1));
    assert_eq!(press(NamedKey::PageUp, SHIFT), moved(Direction::Up, true, PAGE_LINES));
    assert_eq!(press(NamedKey::PageDown, NO_MODS), moved(Direction::Down, false, 20));
    assert_eq!(press(NamedKey::Escape, NO_MODS), None);
    assert_eq!(press(NamedKey::Backspace, NO_MODS), Some(Edit::Backspace));
    assert_eq!(press(NamedKey::Delete, NO_MODS), Some(Edit::DeleteForward));
    assert_eq!(press(NamedKey::Space, CTRL), Some(Edit::Space));
}

#[test]
fn typing_completes_markdown() {
    assert_eq!(completion(">"), Completion::BlockquoteMarker);
    assert_eq!(completion("`"), Completion::CodeFence);
    assert_eq!(completion("~"), Completion::CodeFence);
    assert_eq!(completion(">>"), Completion::Nothing);
    assert_eq!(
        apply_key(&typing(">"), NO_MODS, false),
        inserted(">", Completion::BlockquoteMarker)
    );
    assert_eq!(apply_key(&typing("é"), SHIFT, false), inserted("é", Completion::Nothing));
    // Control characters are not typed.
    assert_eq!(apply_key(&typing("\u{1b}"), NO_MODS, false), None);
    assert_eq!(apply_key(&typing(""), NO_MODS, false), None);
}

#[test]
fn shortcuts_edit() {
    let press = |c: &str, mods| apply_key(&typing(c), mods, false);
    assert_eq!(press("s", CTRL), Some(Edit::Save));
    assert_eq!(press("S", CMD), Some(Edit::Save));
    assert_eq!(press("z", CTRL), Some(Edit::Undo));
    assert_eq!(press("Z", CTRL_SHIFT), Some(Edit::Redo));
    assert_eq!(press("y", CTRL), Some(Edit::Redo));
    assert_eq!(press("a", CTRL), Some(Edit::SelectAll));
    assert_eq!(press("r", CTRL), Some(Edit::RevalidateRefs));
    // Any other one types nothing.
    assert_eq!(press("q", CTRL), None);
    assert_eq!(press("é", CTRL), None);
}

#[test]
fn window_shortcuts_come_first() {
    let focused = KeyContext {
        find: bar(FindMode::Find, FieldFocus::Search, true),
        ..context(CTRL)
    };
    assert_eq!(command(typing("w"), focused), Some(Command::Close));
    assert_eq!(command(typing("F"), focused), Some(Command::OpenFind { replace: false }));
    assert_eq!(command(typing("h"), focused), Some(Command::OpenFind { replace: true }));
    assert_eq!(command(typing("o"), context(CTRL_SHIFT)), Some(Command::ToggleOutline));
    assert_eq!(command(typing("o"), context(CTRL)), None);
}

#[test]
fn brackets_and_digits_fold() {
    let press = |k, mods| command(at(k), context(mods));
    let left = PhysicalKey::BracketLeft;
    let right = PhysicalKey::BracketRight;
    let folds = |f| Some(Command::Fold(f));
    assert_eq!(press(left, CTRL_SHIFT), folds(FoldCommand::FoldAtCursor));
    assert_eq!(press(right, CTRL_SHIFT), folds(FoldCommand::UnfoldAtCursor));
    assert_eq!(press(left, CTRL_ALT), folds(FoldCommand::FoldAll));
    assert_eq!(press(right, CTRL_ALT), folds(FoldCommand::UnfoldAll));
    assert_eq!(press(PhysicalKey::Digit3, CTRL_SHIFT), folds(FoldCommand::ToLevel(3)));
    assert_eq!(press(PhysicalKey::Digit3, CTRL_ALT), None);
    assert_eq!(press(left, CTRL), None);
    assert_eq!(fold_command(left, SHIFT), None);
    assert_eq!(fold_level_key(PhysicalKey::Digit6), Some(6));
    assert_eq!(fold_level_key(PhysicalKey::Other), None);
}

#[test]
fn escape_closes_the_find_bar_wherever_the_focus_is() {
    for focused in [true, false] {
        let cx = KeyContext {
            find: bar(FindMode::Find, FieldFocus::Search, focused),
            autocomplete: Some(true),
            ..context(NO_MODS)
        };
        assert_eq!(command(named(NamedKey::Escape), cx), Some(Command::CloseFind));
    }
}

#[test]
fn focused_find_bar_takes_every_key() {
    let find = |mode, focus, mods| KeyContext {
        find: bar(mode, focus, true),
        has_selection: true,
        autocomplete: Some(true),
        ..context(mods)
    };
    let search = |mods| find(FindMode::Find, FieldFocus::Search, mods);
    let replace = |mods| find(FindMode::Replace, FieldFocus::Replace, mods);
    let enter = || named(NamedKey::Enter);
    let field = FieldFocus::Search;
    assert_eq!(command(typing("x"), search(NO_MODS)), Some(Command::EditField(field)));
    assert_eq!(command(typing("c"), search(CTRL)), Some(Command::EditField(field)));
    assert_eq!(command(typing("v"), search(CTRL)), Some(Command::PasteField(field)));
    assert_eq!(command(typing("z"), search(CTRL)), Some(Command::FindUndo));
    assert_eq!(command(typing("z"), search(CTRL_SHIFT)), Some(Command::FindRedo));
    assert_eq!(command(typing("y"), search(CTRL)), Some(Command::FindRedo));
    assert_eq!(command(named(NamedKey::Tab), search(NO_MODS)), Some(Command::ToggleField));
    assert_eq!(command(typing("r"), search(ALT)), Some(Command::ToggleRegex));
    assert_eq!(command(typing("C"), search(ALT)), Some(Command::ToggleCase));
    assert_eq!(command(enter(), search(NO_MODS)), Some(Command::FindNext));
    assert_eq!(command(enter(), search(SHIFT)), Some(Command::FindPrev));
    assert_eq!(command(enter(), search(CTRL)), Some(Command::FindNext));
    assert_eq!(command(enter(), replace(NO_MODS)), Some(Command::ReplaceCurrent));
    assert_eq!(command(enter(), replace(SHIFT)), Some(Command::FindPrev));
    assert_eq!(command(enter(), replace(CTRL)), Some(Command::ReplaceAll));
    let in_search = find(FindMode::Replace, FieldFocus::Search, NO_MODS);
    assert_eq!(command(enter(), in_search), Some(Command::FindNext));
}

#[test]
fn unfocused_find_bar_lets_keys_through() {
    let cx = KeyContext {
        find: bar(FindMode::Find, FieldFocus::Search, false),
        ..context(NO_MODS)
    };
    assert_eq!(
        key_action(&typing("x"), cx),
        key_action(&typing("x"), context(NO_MODS))
    );
}

#[test]
fn clipboard_needs_a_selection_to_copy() {
    let cx = context(CTRL);
    let selected = KeyContext { has_selection: true, ..cx };
    assert_eq!(command(typing("c"), selected), Some(Command::Copy));
    assert_eq!(command(typing("X"), selected), Some(Command::Cut));
    assert_eq!(command(typing("v"), cx), Some(Command::Paste));
    assert_eq!(key_action(&typing("c"), cx), KeyAction::Ignored);
}

#[test]
fn popup_takes_navigation_keys() {
    let open = |has| KeyContext { autocomplete: Some(has), ..context(NO_MODS) };
    let accept = Some(Command::AcceptAutocomplete);
    assert_eq!(command(named(NamedKey::Enter), open(true)), accept);
    assert_eq!(command(named(NamedKey::Tab), open(true)), accept);
    assert_eq!(command(named(NamedKey::ArrowUp), open(true)), Some(Command::AutocompleteUp));
    assert_eq!(command(named(NamedKey::ArrowDown), open(true)), Some(Command::AutocompleteDown));
    assert_eq!(command(named(NamedKey::Escape), open(false)), Some(Command::CloseAutocomplete));
    // Without suggestions the keys edit the document.
    assert_eq!(key_action(&named(NamedKey::Enter), open(false)), KeyAction::Edit(Edit::Enter));
}

#[test]
fn effects_follow_commands() {
    let e = Command::OpenFind { replace: false }.effects(true, false);
    assert!(e.resize_find_bar && e.rebuild && e.scroll_to_cursor && e.redraw && !e.after_edit);
    let e = Command::FindNext.effects(true, false);
    assert!(e.scroll_to_cursor && !e.rebuild && e.redraw);
    let e = Command::FindNext.effects(false, true);
    assert!(!e.scroll_to_cursor && !e.rebuild && e.redraw);
    let e = Command::EditField(FieldFocus::Search).effects(true, false);
    assert!(e.rescan && e.scroll_to_cursor);
    let e = Command::EditField(FieldFocus::Replace).effects(true, false);
    assert!(!e.rescan && !e.scroll_to_cursor && e.redraw);
    let e = Command::Paste.effects(true, false);
    assert!(e.after_edit && e.autocomplete);
    assert!(!Command::Paste.effects(false, false).redraw);
    assert!(!Command::Copy.effects(true, false).redraw);
    assert!(e.rescan);
    for c in [
        Command::Cut,
        Command::ReplaceAll,
        Command::ReplaceCurrent,
        Command::FindUndo,
        Command::FindRedo,
        Command::AcceptAutocomplete,
    ] {
        let e = c.effects(true, false);
        assert!(e.rescan && e.after_edit && e.redraw && !e.autocomplete);
    }
    assert!(edit_effects(true).rescan && edit_effects(false).rescan);
    assert!(edit_effects(true).autocomplete && !edit_effects(false).autocomplete);
}

#[test]
fn input_methods_write_where_the_focus_is() {
    let bar = bar(FindMode::Replace, FieldFocus::Replace, true);
    let preedit = |empty| ImeEvent::Preedit { empty };
    let commit = |empty| ImeEvent::Commit { empty };
    assert_eq!(ime_action(preedit(false), None, false), ImeAction::Compose { clear: false });
    assert_eq!(ime_action(preedit(true), None, true), ImeAction::Compose { clear: true });
    assert_eq!(ime_action(preedit(true), None, false), ImeAction::Ignored);
    assert_eq!(ime_action(preedit(false), bar, false), ImeAction::Redraw);
    assert_eq!(ime_action(commit(false), None, true), ImeAction::Insert);
    assert_eq!(ime_action(commit(true), None, true), ImeAction::Compose { clear: true });
    assert_eq!(ime_action(commit(true), None, false), ImeAction::Ignored);
    assert_eq!(
        ime_action(commit(false), bar, false),
        ImeAction::InsertField(FieldFocus::Replace)
    );
    assert_eq!(ime_action(commit(true), bar, true), ImeAction::Redraw);
    assert_eq!(ime_action(ImeEvent::Enabled, None, true), ImeAction::Forget);
    assert_eq!(ime_action(ImeEvent::Disabled, bar, true), ImeAction::Compose { clear: true });
    assert_eq!(ime_action(ImeEvent::Disabled, None, false), ImeAction::Ignored);
}

#[test]
fn wakeups_lead_to_work() {
    assert!(user_event(WritEvent::FileChanged, true, false).read_file);
    assert!(!user_event(WritEvent::FileChanged, false, true).read_file);
    let w = user_event(WritEvent::FileReloaded, true, true);
    assert!(w.take_reload && !w.rebuild);
    let w = user_event(WritEvent::GithubUpdated, false, false);
    assert!(w.take_suggestions && !w.rebuild);
    let w = user_event(WritEvent::ImageLoaded, false, true);
    assert!(w.rebuild && !w.take_suggestions);
}

#[test]
fn committed_text_has_effects() {
    let e = ImeAction::InsertField(FieldFocus::Search).effects();
    assert!(e.rescan && e.scroll_to_cursor && e.redraw && !e.after_edit && !e.rebuild);
    let e = ImeAction::InsertField(FieldFocus::Replace).effects();
    assert!(!e.rescan && !e.scroll_to_cursor && e.redraw);
    let e = ImeAction::Insert.effects();
    assert!(e.rescan && e.after_edit && e.redraw && !e.autocomplete);
    let e = ImeAction::Compose { clear: true }.effects();
    assert!(e.rebuild && e.redraw && !e.after_edit);
    assert!(ImeAction::Redraw.effects().redraw && !ImeAction::Redraw.effects().rebuild);
    assert!(!ImeAction::Forget.effects().redraw && !ImeAction::Ignored.effects().redraw);
}
