//! The application shell's decisions: what a key press, an input-method event or a
//! wakeup does. The window, the GPU surface and the editor carry the decisions out.
use crate::keys::{
    is_control, is_letter_key, is_printable, typed_text, Key, KeyPress, KeyPressView, KeyView, Modifiers, NamedKey,
    PhysicalKey,
};
use crate::text::str_eq;
use vstd::prelude::*;
use vstd::string::*;

verus! {

// ---------------------------------------------------------------------------
// Editing keys
// ---------------------------------------------------------------------------

/// Lines the cursor jumps per PageUp/PageDown.
pub const PAGE_LINES: usize = 20;

/// Where the cursor moves.
#[derive(Debug, Clone, Copy, PartialEq, Eq, Structural)]
pub enum Direction {
    Left,
    Right,
    Up,
    Down,
    LineStart,
    LineEnd,
    DocStart,
    DocEnd,
}

/// The markdown structure that is completed after a text was typed.
#[derive(Debug, Clone, Copy, PartialEq, Eq, Structural)]
pub enum Completion {
    Nothing,
    /// The space after a `>`.
    BlockquoteMarker,
    /// The closing fence after a ```` ``` ```` or `~~~`.
    CodeFence,
}

/// What a key press does to the document.
#[derive(Debug, PartialEq)]
pub enum Edit {
    Enter,
    ShiftEnter,
    ShiftAltEnter,
    Backspace,
    DeleteForward,
    Tab,
    ShiftTab,
    /// A space, unless it is suppressed at the start of a line or of quoted content.
    Space,
    /// The cursor moves `times` times.
    Move { direction: Direction, extend: bool, times: usize },
    Save,
    Undo,
    Redo,
    SelectAll,
    /// GitHub references are validated anew.
    RevalidateRefs,
    Insert { text: String, completion: Completion },
}

/// What an [`Edit`] says.
pub enum EditView {
    Enter,
    ShiftEnter,
    ShiftAltEnter,
    Backspace,
    DeleteForward,
    Tab,
    ShiftTab,
    Space,
    Move { direction: Direction, extend: bool, times: int },
    Save,
    Undo,
    Redo,
    SelectAll,
    RevalidateRefs,
    Insert { text: Seq<char>, completion: Completion },
}

impl View for Edit {
    type V = EditView;

    open spec fn view(&self) -> EditView {
        match *self {
            Edit::Enter => EditView::Enter,
            Edit::ShiftEnter => EditView::ShiftEnter,
            Edit::ShiftAltEnter => EditView::ShiftAltEnter,
            Edit::Backspace => EditView::Backspace,
            Edit::DeleteForward => EditView::DeleteForward,
            Edit::Tab => EditView::Tab,
            Edit::ShiftTab => EditView::ShiftTab,
            Edit::Space => EditView::Space,
            Edit::Move { direction, extend, times } => EditView::Move {
                direction,
                extend,
                times: times as int,
            },
            Edit::Save => EditView::Save,
            Edit::Undo => EditView::Undo,
            Edit::Redo => EditView::Redo,
            Edit::SelectAll => EditView::SelectAll,
            Edit::RevalidateRefs => EditView::RevalidateRefs,
            Edit::Insert { text, completion } => EditView::Insert { text: text@, completion },
        }
    }
}

/// What an optional edit says.
pub open spec fn edit_if_any(e: Option<Edit>) -> Option<EditView> {
    match e {
        Some(e) => Some(e@),
        None => None,
    }
}

/// The completion of a text that was typed.
pub open spec fn completion_of(text: Seq<char>) -> Completion {
    if text == ">"@ {
        Completion::BlockquoteMarker
    } else if text == "`"@ || text == "~"@ {
        Completion::CodeFence
    } else {
        Completion::Nothing
    }
}

/// The edit of a command shortcut; any other Ctrl+key is swallowed so it doesn't type a
/// character.
pub open spec fn shortcut_edit(k: KeyView, shift: bool) -> Option<EditView> {
    if is_letter_key(k, "s"@, "S"@) {
        Some(EditView::Save)
    } else if is_letter_key(k, "z"@, "Z"@) {
        Some(
            if shift {
                EditView::Redo
            } else {
                EditView::Undo
            },
        )
    } else if is_letter_key(k, "y"@, "Y"@) {
        Some(EditView::Redo)
    } else if is_letter_key(k, "a"@, "A"@) {
        Some(EditView::SelectAll)
    } else if is_letter_key(k, "r"@, "R"@) {
        Some(EditView::RevalidateRefs)
    } else {
        None
    }
}

/// The edit of a key that is neither an editing nor a movement key.
pub open spec fn typed_edit(k: KeyPressView, mods: Modifiers) -> Option<EditView> {
    if mods.command() {
        shortcut_edit(k.logical_key, mods.shift)
    } else {
        match typed_text(k) {
            Some(text) => Some(EditView::Insert { text, completion: completion_of(text) }),
            None => None,
        }
    }
}

/// A movement of the cursor.
pub open spec fn moved(direction: Direction, extend: bool, times: int) -> Option<EditView> {
    Some(EditView::Move { direction, extend, times })
}

/// The edit of a key press.
pub open spec fn edit_of(k: KeyPressView, mods: Modifiers, in_code_block: bool) -> Option<EditView> {
    match k.logical_key {
        KeyView::Named(NamedKey::Enter) => Some(
            if mods.shift && mods.alt {
                EditView::ShiftAltEnter
            } else if mods.shift {
                EditView::ShiftEnter
            } else {
                EditView::Enter
            },
        ),
        KeyView::Named(NamedKey::Backspace) => Some(EditView::Backspace),
        KeyView::Named(NamedKey::Delete) => Some(EditView::DeleteForward),
        KeyView::Named(NamedKey::Tab) => Some(
            if mods.shift {
                EditView::ShiftTab
            } else if in_code_block {
                EditView::Insert { text: "    "@, completion: Completion::Nothing }
            } else {
                EditView::Tab
            },
        ),
        KeyView::Named(NamedKey::Space) => Some(EditView::Space),
        KeyView::Named(NamedKey::ArrowLeft) => moved(Direction::Left, mods.shift, 1),
        KeyView::Named(NamedKey::ArrowRight) => moved(Direction::Right, mods.shift, 1),
        KeyView::Named(NamedKey::ArrowUp) => moved(Direction::Up, mods.shift, 1),
        KeyView::Named(NamedKey::ArrowDown) => moved(Direction::Down, mods.shift, 1),
        KeyView::Named(NamedKey::Home) => moved(
            if mods.command() {
                Direction::DocStart
            } else {
                Direction::LineStart
            },
            mods.shift,
            1,
        ),
        KeyView::Named(NamedKey::End) => moved(
            if mods.command() {
                Direction::DocEnd
            } else {
                Direction::LineEnd
            },
            mods.shift,
            1,
        ),
        KeyView::Named(NamedKey::PageUp) => moved(Direction::Up, mods.shift, PAGE_LINES as int),
        KeyView::Named(NamedKey::PageDown) => moved(
            Direction::Down,
            mods.shift,
            PAGE_LINES as int,
        ),
        _ => typed_edit(k, mods),
    }
}

fn move_by(direction: Direction, extend: bool, times: usize) -> (r: Option<Edit>)
    ensures
        edit_if_any(r) == moved(direction, extend, times as int),
        r == Some(Edit::Move { direction, extend, times }),
{
    Some(Edit::Move { direction, extend, times })
}

fn shortcut(k: &Key, shift: bool) -> (r: Option<Edit>)
    ensures
        edit_if_any(r) == shortcut_edit(k@, shift),
{
    if k.is_letter("s", "S") {
        Some(Edit::Save)
    } else if k.is_letter("z", "Z") {
        if shift {
            Some(Edit::Redo)
        } else {
            Some(Edit::Undo)
        }
    } else if k.is_letter("y", "Y") {
        Some(Edit::Redo)
    } else if k.is_letter("a", "A") {
        Some(Edit::SelectAll)
    } else if k.is_letter("r", "R") {
        Some(Edit::RevalidateRefs)
    } else {
        None
    }
}

/// The markdown structure to complete after a text was typed: `>` gets its space, a
/// ```` ``` ```` or `~~~` its closing fence.
pub fn completion(text: &str) -> (r: Completion)
    ensures
        r == completion_of(text@),
{
    if str_eq(text, ">") {
        Completion::BlockquoteMarker
    } else if str_eq(text, "`") || str_eq(text, "~") {
        Completion::CodeFence
    } else {
        Completion::Nothing
    }
}

/// Translate a key press into an editor edit/move; `None` if it does nothing.
pub fn apply_key(event: &KeyPress, mods: Modifiers, in_code_block: bool) -> (r: Option<Edit>)
    ensures
        edit_if_any(r) == edit_of(event@, mods, in_code_block),
        event.logical_key == Key::Named(NamedKey::ArrowLeft) ==> r == Some(
            Edit::Move { direction: Direction::Left, extend: mods.shift, times: 1 },
        ),
        event.logical_key == Key::Named(NamedKey::ArrowRight) ==> r == Some(
            Edit::Move { direction: Direction::Right, extend: mods.shift, times: 1 },
        ),
        event.logical_key == Key::Named(NamedKey::ArrowUp) ==> r == Some(
            Edit::Move { direction: Direction::Up, extend: mods.shift, times: 1 },
        ),
        event.logical_key == Key::Named(NamedKey::ArrowDown) ==> r == Some(
            Edit::Move { direction: Direction::Down, extend: mods.shift, times: 1 },
        ),
{
    let shift = mods.shift;
    match &event.logical_key {
        Key::Named(NamedKey::Enter) => {
            if shift && mods.alt {
                Some(Edit::ShiftAltEnter)
            } else if shift {
                Some(Edit::ShiftEnter)
            } else {
                Some(Edit::Enter)
            }
        },
        Key::Named(NamedKey::Backspace) => Some(Edit::Backspace),
        Key::Named(NamedKey::Delete) => Some(Edit::DeleteForward),
        Key::Named(NamedKey::Tab) => {
            // In a code block Tab indents (4 spaces) instead of cycling list nesting.
            if !shift && in_code_block {
                Some(Edit::Insert { text: "    ".to_owned(), completion: Completion::Nothing })
            } else if shift {
                Some(Edit::ShiftTab)
            } else {
                Some(Edit::Tab)
            }
        },
        Key::Named(NamedKey::Space) => Some(Edit::Space),
        Key::Named(NamedKey::ArrowLeft) => move_by(Direction::Left, shift, 1),
        Key::Named(NamedKey::ArrowRight) => move_by(Direction::Right, shift, 1),
        Key::Named(NamedKey::ArrowUp) => move_by(Direction::Up, shift, 1),
        Key::Named(NamedKey::ArrowDown) => move_by(Direction::Down, shift, 1),
        // Home/End: line boundary, or document boundary with Ctrl/Super; Shift extends.
        Key::Named(NamedKey::Home) => {
            if mods.is_command() {
                move_by(Direction::DocStart, shift, 1)
            } else {
                move_by(Direction::LineStart, shift, 1)
            }
        },
        Key::Named(NamedKey::End) => {
            if mods.is_command() {
                move_by(Direction::DocEnd, shift, 1)
            } else {
                move_by(Direction::LineEnd, shift, 1)
            }
        },
        Key::Named(NamedKey::PageUp) => move_by(Direction::Up, shift, PAGE_LINES),
        Key::Named(NamedKey::PageDown) => move_by(Direction::Down, shift, PAGE_LINES),
        _ => {
            if mods.is_command() {
                shortcut(&event.logical_key, shift)
            } else {
                match event.typed() {
                    Some(text) => Some(
                        Edit::Insert { text: text.to_owned(), completion: completion(text) },
                    ),
                    None => None,
                }
            }
        },
    }
}

// ---------------------------------------------------------------------------
// Key routing
// ---------------------------------------------------------------------------

/// What the find bar is open for.
#[derive(Debug, Clone, Copy, PartialEq, Eq, Structural)]
pub enum FindMode {
    Find,
    Replace,
}

/// The field of the find bar that is edited.
#[derive(Debug, Clone, Copy, PartialEq, Eq, Structural)]
pub enum FieldFocus {
    Search,
    Replace,
}

/// The open find bar. It swallows keys only while it is `focused`.
#[derive(Debug, Clone, Copy, PartialEq, Eq, Structural)]
pub struct FindState {
    pub mode: FindMode,
    pub focus: FieldFocus,
    pub focused: bool,
}

/// What a key press meets.
#[derive(Debug, Clone, Copy, PartialEq)]
pub struct KeyContext {
    pub mods: Modifiers,
    /// The find bar, while it is open.
    pub find: Option<FindState>,
    pub has_selection: bool,
    /// Whether the autocomplete popup has suggestions, while it is open.
    pub autocomplete: Option<bool>,
    pub in_code_block: bool,
}

/// What a fold shortcut does.
#[derive(Debug, Clone, Copy, PartialEq, Eq, Structural)]
pub enum FoldCommand {
    FoldAtCursor,
    UnfoldAtCursor,
    FoldAll,
    UnfoldAll,
    ToLevel(u8),
}

/// What a key press does other than editing the document.
#[derive(Debug, Clone, Copy, PartialEq, Eq, Structural)]
pub enum Command {
    Close,
    OpenFind { replace: bool },
    ToggleOutline,
    Fold(FoldCommand),
    CloseFind,
    /// The document is undone or redone with the find bar focused.
    FindUndo,
    FindRedo,
    ReplaceAll,
    ReplaceCurrent,
    FindNext,
    FindPrev,
    ToggleField,
    ToggleRegex,
    ToggleCase,
    /// The clipboard is inserted into a field of the find bar.
    PasteField(FieldFocus),
    /// The key edits a field of the find bar.
    EditField(FieldFocus),
    Copy,
    Cut,
    Paste,
    CloseAutocomplete,
    AutocompleteUp,
    AutocompleteDown,
    AcceptAutocomplete,
}

/// Heading depth for a `Ctrl+Shift+<n>` fold-to-level shortcut.
pub open spec fn level_of_key(key: PhysicalKey) -> Option<u8> {
    match key {
        PhysicalKey::Digit1 => Some(1),
        PhysicalKey::Digit2 => Some(2),
        PhysicalKey::Digit3 => Some(3),
        PhysicalKey::Digit4 => Some(4),
        PhysicalKey::Digit5 => Some(5),
        PhysicalKey::Digit6 => Some(6),
        _ => None,
    }
}

/// Heading depth for a `Ctrl+Shift+<n>` fold-to-level shortcut, from the physical digit
/// key (1..6), or `None` for any other key.
pub fn fold_level_key(key: PhysicalKey) -> (r: Option<u8>)
    ensures
        r == level_of_key(key),
{
    match key {
        PhysicalKey::Digit1 => Some(1),
        PhysicalKey::Digit2 => Some(2),
        PhysicalKey::Digit3 => Some(3),
        PhysicalKey::Digit4 => Some(4),
        PhysicalKey::Digit5 => Some(5),
        PhysicalKey::Digit6 => Some(6),
        _ => None,
    }
}

/// Heading folding: Ctrl/Cmd+Shift+[ / ] fold / unfold the current section;
/// Ctrl/Cmd+Alt+[ / ] fold / unfold all headings; Ctrl/Cmd+Shift+1..6 fold to that
/// heading depth.
pub open spec fn fold_of(key: PhysicalKey, mods: Modifiers) -> Option<FoldCommand> {
    if !mods.command() || !(mods.shift || mods.alt) {
        None
    } else if key == PhysicalKey::BracketLeft {
        Some(
            if mods.shift {
                FoldCommand::FoldAtCursor
            } else {
                FoldCommand::FoldAll
            },
        )
    } else if key == PhysicalKey::BracketRight {
        Some(
            if mods.shift {
                FoldCommand::UnfoldAtCursor
            } else {
                FoldCommand::UnfoldAll
            },
        )
    } else if mods.shift && level_of_key(key) is Some {
        Some(FoldCommand::ToLevel(level_of_key(key)->0))
    } else {
        None
    }
}

/// The fold shortcut that a key press is, if any. Matched on physical keys so Shift's
/// `{`/`}`/`!` remaps don't matter.
pub fn fold_command(key: PhysicalKey, mods: Modifiers) -> (r: Option<FoldCommand>)
    ensures
        r == fold_of(key, mods),
{
    if !mods.is_command() || !(mods.shift || mods.alt) {
        return None;
    }
    match key {
        PhysicalKey::BracketLeft => {
            if mods.shift {
                Some(FoldCommand::FoldAtCursor)
            } else {
                Some(FoldCommand::FoldAll)
            }
        },
        PhysicalKey::BracketRight => {
            if mods.shift {
                Some(FoldCommand::UnfoldAtCursor)
            } else {
                Some(FoldCommand::UnfoldAll)
            }
        },
        _ => {
            if mods.shift {
                match fold_level_key(key) {
                    Some(level) => Some(FoldCommand::ToLevel(level)),
                    None => None,
                }
            } else {
                None
            }
        },
    }
}

/// What the focused find bar does with a key.
pub open spec fn find_command_of(k: KeyView, mods: Modifiers, find: FindState) -> Command {
    if mods.command() && is_letter_key(k, "y"@, "Y"@) {
        Command::FindRedo
    } else if mods.command() && is_letter_key(k, "z"@, "Z"@) {
        if mods.shift {
            Command::FindRedo
        } else {
            Command::FindUndo
        }
    } else if k == KeyView::Named(NamedKey::Enter) {
        if find.mode is Replace && mods.command() {
            Command::ReplaceAll
        } else if find.mode is Replace && !mods.shift && find.focus is Replace {
            Command::ReplaceCurrent
        } else if mods.shift {
            Command::FindPrev
        } else {
            Command::FindNext
        }
    } else if k == KeyView::Named(NamedKey::Tab) {
        Command::ToggleField
    } else if mods.alt && is_letter_key(k, "r"@, "R"@) {
        Command::ToggleRegex
    } else if mods.alt && is_letter_key(k, "c"@, "C"@) {
        Command::ToggleCase
    } else if mods.command() && is_letter_key(k, "v"@, "V"@) {
        Command::PasteField(find.focus)
    } else {
        Command::EditField(find.focus)
    }
}

/// What the focused find bar does with a key. Undo and redo act on the document, so a
/// replace can be undone without clicking away; Ctrl/Cmd+Enter replaces every match, a
/// plain Enter in the replace field the active one; everything else stays in the bar.
pub fn find_command(k: &Key, mods: Modifiers, find: FindState) -> (r: Command)
    ensures
        r == find_command_of(k@, mods, find),
{
    let cmd = mods.is_command();
    if cmd && k.is_letter("y", "Y") {
        return Command::FindRedo;
    }
    if cmd && k.is_letter("z", "Z") {
        return if mods.shift {
            Command::FindRedo
        } else {
            Command::FindUndo
        };
    }
    if k.is_named(NamedKey::Enter) {
        let replaces = matches!(find.mode, FindMode::Replace);
        let in_replace = matches!(find.focus, FieldFocus::Replace);
        return if replaces && cmd {
            Command::ReplaceAll
        } else if replaces && !mods.shift && in_replace {
            Command::ReplaceCurrent
        } else if mods.shift {
            Command::FindPrev
        } else {
            Command::FindNext
        };
    }
    if k.is_named(NamedKey::Tab) {
        return Command::ToggleField;
    }
    if mods.alt && k.is_letter("r", "R") {
        return Command::ToggleRegex;
    }
    if mods.alt && k.is_letter("c", "C") {
        return Command::ToggleCase;
    }
    if cmd && k.is_letter("v", "V") {
        return Command::PasteField(find.focus);
    }
    Command::EditField(find.focus)
}

/// The clipboard command that a key is.
pub open spec fn clipboard_of(k: KeyView, cx: KeyContext) -> Option<Command> {
    if !cx.mods.command() {
        None
    } else if is_letter_key(k, "c"@, "C"@) && cx.has_selection {
        Some(Command::Copy)
    } else if is_letter_key(k, "x"@, "X"@) && cx.has_selection {
        Some(Command::Cut)
    } else if is_letter_key(k, "v"@, "V"@) {
        Some(Command::Paste)
    } else {
        None
    }
}

/// What the open autocomplete popup does with a key.
pub open spec fn popup_of(k: KeyView, autocomplete: Option<bool>) -> Option<Command> {
    match autocomplete {
        None => None,
        Some(has) => if k == KeyView::Named(NamedKey::Escape) {
            Some(Command::CloseAutocomplete)
        } else if has && k == KeyView::Named(NamedKey::ArrowUp) {
            Some(Command::AutocompleteUp)
        } else if has && k == KeyView::Named(NamedKey::ArrowDown) {
            Some(Command::AutocompleteDown)
        } else if has && (k == KeyView::Named(NamedKey::Enter) || k == KeyView::Named(
            NamedKey::Tab,
        )) {
            Some(Command::AcceptAutocomplete)
        } else {
            None
        },
    }
}

/// The window-wide command that a key is: it comes before everything else.
pub open spec fn window_command_of(k: KeyPressView, cx: KeyContext) -> Option<Command> {
    let cmd = cx.mods.command();
    if cmd && is_letter_key(k.logical_key, "w"@, "W"@) {
        Some(Command::Close)
    } else if cmd && is_letter_key(k.logical_key, "f"@, "F"@) {
        Some(Command::OpenFind { replace: false })
    } else if cmd && is_letter_key(k.logical_key, "h"@, "H"@) {
        Some(Command::OpenFind { replace: true })
    } else if cmd && cx.mods.shift && is_letter_key(k.logical_key, "o"@, "O"@) {
        Some(Command::ToggleOutline)
    } else if fold_of(k.physical_key, cx.mods) is Some {
        Some(Command::Fold(fold_of(k.physical_key, cx.mods)->0))
    } else if cx.find is Some && k.logical_key == KeyView::Named(NamedKey::Escape) {
        Some(Command::CloseFind)
    } else {
        None
    }
}

/// The command that a key press is, if it does not edit the document.
pub open spec fn command_of(k: KeyPressView, cx: KeyContext) -> Option<Command> {
    if window_command_of(k, cx) is Some {
        window_command_of(k, cx)
    } else if cx.find is Some && (cx.find->0).focused {
        Some(find_command_of(k.logical_key, cx.mods, cx.find->0))
    } else if clipboard_of(k.logical_key, cx) is Some {
        clipboard_of(k.logical_key, cx)
    } else {
        popup_of(k.logical_key, cx.autocomplete)
    }
}

/// What a key press does.
#[derive(Debug, PartialEq)]
pub enum KeyAction {
    Command(Command),
    Edit(Edit),
    Ignored,
}

/// What a [`KeyAction`] says.
pub enum KeyActionView {
    Command(Command),
    Edit(EditView),
    Ignored,
}

impl View for KeyAction {
    type V = KeyActionView;

    open spec fn view(&self) -> KeyActionView {
        match *self {
            KeyAction::Command(c) => KeyActionView::Command(c),
            KeyAction::Edit(e) => KeyActionView::Edit(e@),
            KeyAction::Ignored => KeyActionView::Ignored,
        }
    }
}

/// What a key press does: a command, or else an edit of the document.
pub open spec fn action_of(k: KeyPressView, cx: KeyContext) -> KeyActionView {
    match command_of(k, cx) {
        Some(c) => KeyActionView::Command(c),
        None => match edit_of(k, cx.mods, cx.in_code_block) {
            Some(e) => KeyActionView::Edit(e),
            None => KeyActionView::Ignored,
        },
    }
}

fn window_command(event: &KeyPress, cx: KeyContext) -> (r: Option<Command>)
    ensures
        r == window_command_of(event@, cx),
{
    let k = &event.logical_key;
    if cx.mods.is_command() {
        // Ctrl-W / Super-W closes the window (does not auto-save; use Ctrl-S).
        if k.is_letter("w", "W") {
            return Some(Command::Close);
        }
        if k.is_letter("f", "F") {
            return Some(Command::OpenFind { replace: false });
        }
        if k.is_letter("h", "H") {
            return Some(Command::OpenFind { replace: true });
        }
        if cx.mods.shift && k.is_letter("o", "O") {
            return Some(Command::ToggleOutline);
        }
    }
    match fold_command(event.physical_key, cx.mods) {
        Some(f) => {
            return Some(Command::Fold(f));
        },
        None => {},
    }
    // Escape closes the find bar regardless of which pane holds focus (so it works even
    // after clicking into the document unfocuses the bar).
    if cx.find.is_some() && k.is_named(NamedKey::Escape) {
        return Some(Command::CloseFind);
    }
    None
}

fn clipboard_command(k: &Key, cx: KeyContext) -> (r: Option<Command>)
    ensures
        r == clipboard_of(k@, cx),
{
    if !cx.mods.is_command() {
        None
    } else if k.is_letter("c", "C") && cx.has_selection {
        Some(Command::Copy)
    } else if k.is_letter("x", "X") && cx.has_selection {
        Some(Command::Cut)
    } else if k.is_letter("v", "V") {
        Some(Command::Paste)
    } else {
        None
    }
}

fn popup_command(k: &Key, autocomplete: Option<bool>) -> (r: Option<Command>)
    ensures
        r == popup_of(k@, autocomplete),
{
    match autocomplete {
        None => None,
        Some(has) => {
            if k.is_named(NamedKey::Escape) {
                Some(Command::CloseAutocomplete)
            } else if has && k.is_named(NamedKey::ArrowUp) {
                Some(Command::AutocompleteUp)
            } else if has && k.is_named(NamedKey::ArrowDown) {
                Some(Command::AutocompleteDown)
            } else if has && (k.is_named(NamedKey::Enter) || k.is_named(NamedKey::Tab)) {
                Some(Command::AcceptAutocomplete)
            } else {
                None
            }
        },
    }
}

/// What a key press does. Window shortcuts come first; the find bar swallows every other
/// key while it owns the focus; then the clipboard, the autocomplete popup and the
/// document get it.
pub fn key_action(event: &KeyPress, cx: KeyContext) -> (r: KeyAction)
    ensures
        r@ == action_of(event@, cx),
{
    match window_command(event, cx) {
        Some(c) => {
            return KeyAction::Command(c);
        },
        None => {},
    }
    match cx.find {
        Some(find) => {
            if find.focused {
                return KeyAction::Command(find_command(&event.logical_key, cx.mods, find));
            }
        },
        None => {},
    }
    match clipboard_command(&event.logical_key, cx) {
        Some(c) => {
            return KeyAction::Command(c);
        },
        None => {},
    }
    match popup_command(&event.logical_key, cx.autocomplete) {
        Some(c) => {
            return KeyAction::Command(c);
        },
        None => {},
    }
    match apply_key(event, cx.mods, cx.in_code_block) {
        Some(e) => KeyAction::Edit(e),
        None => KeyAction::Ignored,
    }
}

/// No key reaches the document while the find bar owns the focus.
pub proof fn law_focused_find_bar_swallows_keys(k: KeyPressView, cx: KeyContext)
    requires
        cx.find is Some,
        (cx.find->0).focused,
    ensures
        action_of(k, cx) is Command,
        action_of(k, cx)->Command_0 !is Copy,
        action_of(k, cx)->Command_0 !is Cut,
        action_of(k, cx)->Command_0 !is Paste,
        action_of(k, cx)->Command_0 !is AcceptAutocomplete,
{
}

/// An open find bar that does not own the focus changes what no key but Escape does.
pub proof fn law_unfocused_find_bar_is_transparent(k: KeyPressView, cx: KeyContext)
    requires
        cx.find is Some,
        !(cx.find->0).focused,
        k.logical_key != KeyView::Named(NamedKey::Escape),
    ensures
        action_of(k, cx) == action_of(k, KeyContext { find: None, ..cx }),
{
}

/// Escape closes the find bar whichever pane holds the focus, unless the press is a fold
/// shortcut.
pub proof fn law_escape_closes_find(k: KeyPressView, cx: KeyContext)
    requires
        cx.find is Some,
        k.logical_key == KeyView::Named(NamedKey::Escape),
        fold_of(k.physical_key, cx.mods) is None,
    ensures
        action_of(k, cx) == KeyActionView::Command(Command::CloseFind),
{
}

/// A character key types nothing while Ctrl or Super is held.
pub proof fn law_shortcuts_type_nothing(k: KeyPressView, cx: KeyContext)
    requires
        cx.mods.command(),
        k.logical_key is Character,
    ensures
        !(action_of(k, cx) is Edit && action_of(k, cx)->Edit_0 is Insert),
{
}

// ---------------------------------------------------------------------------
// What follows
// ---------------------------------------------------------------------------

/// The work that follows an action.
#[derive(Debug, Clone, Copy, PartialEq, Eq, Structural)]
pub struct Effects {
    /// The height of the find bar changed.
    pub resize_find_bar: bool,
    /// Where the find bar is open, its matches are searched anew, before anything else.
    pub rescan: bool,
    /// The document is laid out anew, where it is scrolled.
    pub rebuild: bool,
    pub scroll_to_cursor: bool,
    /// The flow that every edit runs behind the search: drop the hover target, lay the
    /// document out, validate references, load images.
    pub after_edit: bool,
    /// The autocomplete popup is brought up to date with the cursor.
    pub autocomplete: bool,
    pub redraw: bool,
}

/// Nothing follows.
pub open spec fn no_effects() -> Effects {
    Effects {
        resize_find_bar: false,
        rescan: false,
        rebuild: false,
        scroll_to_cursor: false,
        after_edit: false,
        autocomplete: false,
        redraw: false,
    }
}

/// A redraw follows.
pub open spec fn redrawn() -> Effects {
    Effects { redraw: true, ..no_effects() }
}

/// The flow of an edit follows. An edit while the find bar is open leaves its matches stale,
/// so they are searched anew.
pub open spec fn edited(autocomplete: bool) -> Effects {
    Effects { rescan: true, after_edit: true, autocomplete, ..redrawn() }
}

/// What follows a command. `acted` says that it found something to act on (a match to go
/// to, text to paste), `revealed` that the cursor came out of a folded section.
pub open spec fn effects_of(c: Command, acted: bool, revealed: bool) -> Effects {
    match c {
        Command::Close | Command::Copy => no_effects(),
        Command::OpenFind { replace: _ } => Effects {
            resize_find_bar: true,
            rebuild: true,
            scroll_to_cursor: true,
            ..redrawn()
        },
        Command::CloseFind => Effects { resize_find_bar: true, rebuild: true, ..redrawn() },
        Command::ToggleOutline => Effects { rebuild: true, ..redrawn() },
        Command::Fold(_) => Effects { rebuild: true, scroll_to_cursor: true, ..redrawn() },
        Command::FindUndo | Command::FindRedo | Command::ReplaceAll | Command::ReplaceCurrent
        | Command::Cut | Command::AcceptAutocomplete => edited(false),
        Command::Paste => if acted {
            edited(true)
        } else {
            no_effects()
        },
        Command::FindNext | Command::FindPrev => Effects {
            rebuild: acted && revealed,
            scroll_to_cursor: acted,
            ..redrawn()
        },
        Command::ToggleRegex | Command::ToggleCase => Effects {
            scroll_to_cursor: true,
            ..redrawn()
        },
        // A search-field edit changes the match set.
        Command::PasteField(field) | Command::EditField(field) => Effects {
            rescan: field is Search,
            scroll_to_cursor: field is Search,
            ..redrawn()
        },
        Command::ToggleField | Command::CloseAutocomplete | Command::AutocompleteUp
        | Command::AutocompleteDown => redrawn(),
    }
}

fn nothing() -> (r: Effects)
    ensures
        r == no_effects(),
{
    Effects {
        resize_find_bar: false,
        rescan: false,
        rebuild: false,
        scroll_to_cursor: false,
        after_edit: false,
        autocomplete: false,
        redraw: false,
    }
}

impl Command {
    /// What follows the command. `acted` says that it found something to act on (a match to
    /// go to, text to paste), `revealed` that the cursor came out of a folded section.
    pub fn effects(self, acted: bool, revealed: bool) -> (r: Effects)
        ensures
            r == effects_of(self, acted, revealed),
    {
        let mut e = nothing();
        match self {
            Command::Close | Command::Copy => {
                return e;
            },
            Command::Paste => {
                if !acted {
                    return e;
                }
                e.rescan = true;
                e.after_edit = true;
                e.autocomplete = true;
            },
            Command::OpenFind { replace: _ } => {
                e.resize_find_bar = true;
                e.rebuild = true;
                e.scroll_to_cursor = true;
            },
            Command::CloseFind => {
                e.resize_find_bar = true;
                e.rebuild = true;
            },
            Command::ToggleOutline => {
                e.rebuild = true;
            },
            Command::Fold(_) => {
                e.rebuild = true;
                e.scroll_to_cursor = true;
            },
            Command::FindUndo | Command::FindRedo | Command::ReplaceAll | Command::ReplaceCurrent
            | Command::Cut | Command::AcceptAutocomplete => {
                e.rescan = true;
                e.after_edit = true;
            },
            Command::FindNext | Command::FindPrev => {
                e.rebuild = acted && revealed;
                e.scroll_to_cursor = acted;
            },
            Command::ToggleRegex | Command::ToggleCase => {
                e.scroll_to_cursor = true;
            },
            Command::PasteField(field) | Command::EditField(field) => {
                let search = matches!(field, FieldFocus::Search);
                e.rescan = search;
                e.scroll_to_cursor = search;
            },
            Command::ToggleField | Command::CloseAutocomplete | Command::AutocompleteUp
            | Command::AutocompleteDown => {},
        }
        e.redraw = true;
        e
    }
}

/// What follows an edit of the document, from the keyboard or not.
pub fn edit_effects(from_keyboard: bool) -> (r: Effects)
    ensures
        r == edited(from_keyboard),
{
    let mut e = nothing();
    e.rescan = true;
    e.after_edit = true;
    e.autocomplete = from_keyboard;
    e.redraw = true;
    e
}

/// Find highlights are live: whatever edits the document has the matches searched anew and
/// the window drawn anew.
pub proof fn law_edits_rescan(c: Command, acted: bool, revealed: bool, from_keyboard: bool)
    ensures
        effects_of(c, acted, revealed).after_edit ==> effects_of(c, acted, revealed).rescan
            && effects_of(c, acted, revealed).redraw,
        edited(from_keyboard).rescan && edited(from_keyboard).redraw,
{
}

// ---------------------------------------------------------------------------
// Input methods
// ---------------------------------------------------------------------------

/// An input-method event; `empty` says that its text is.
#[derive(Debug, Clone, Copy, PartialEq, Eq, Structural)]
pub enum ImeEvent {
    Enabled,
    Preedit { empty: bool },
    Commit { empty: bool },
    Disabled,
}

/// What an input-method event does.
#[derive(Debug, Clone, Copy, PartialEq, Eq, Structural)]
pub enum ImeAction {
    Ignored,
    /// The composition is forgotten.
    Forget,
    Redraw,
    /// The composition is shown in the caret line, or dropped where its text is empty, and
    /// the document is laid out anew.
    Compose { clear: bool },
    /// The composition is dropped and the text inserted into the document.
    Insert,
    /// The text is inserted into a field of the find bar.
    InsertField(FieldFocus),
}

/// The find bar is open and owns the focus.
pub open spec fn owns_focus(find: Option<FindState>) -> bool {
    find is Some && (find->0).focused
}

/// What an input-method event does.
pub open spec fn ime_of(event: ImeEvent, find: Option<FindState>, composing: bool) -> ImeAction {
    match event {
        ImeEvent::Enabled => ImeAction::Forget,
        ImeEvent::Preedit { empty } => if owns_focus(find) {
            ImeAction::Redraw
        } else if empty && !composing {
            ImeAction::Ignored
        } else {
            ImeAction::Compose { clear: empty }
        },
        ImeEvent::Commit { empty } => if owns_focus(find) {
            if empty {
                ImeAction::Redraw
            } else {
                ImeAction::InsertField((find->0).focus)
            }
        } else if !empty {
            ImeAction::Insert
        } else if composing {
            ImeAction::Compose { clear: true }
        } else {
            ImeAction::Ignored
        },
        ImeEvent::Disabled => if composing {
            ImeAction::Compose { clear: true }
        } else {
            ImeAction::Ignored
        },
    }
}

/// What an input-method event does. While the find bar owns focus, text goes to its field.
/// An empty composition with nothing to clear is a no-op: some input methods send it at
/// idle, and every one would lay the document out anew.
pub fn ime_action(event: ImeEvent, find: Option<FindState>, composing: bool) -> (r: ImeAction)
    ensures
        r == ime_of(event, find, composing),
{
    let (bar, field) = match find {
        Some(f) => (f.focused, f.focus),
        None => (false, FieldFocus::Search),
    };
    match event {
        ImeEvent::Enabled => ImeAction::Forget,
        ImeEvent::Preedit { empty } => {
            if bar {
                ImeAction::Redraw
            } else if empty && !composing {
                ImeAction::Ignored
            } else {
                ImeAction::Compose { clear: empty }
            }
        },
        ImeEvent::Commit { empty } => {
            if bar {
                if empty {
                    ImeAction::Redraw
                } else {
                    ImeAction::InsertField(field)
                }
            } else if !empty {
                ImeAction::Insert
            } else if composing {
                ImeAction::Compose { clear: true }
            } else {
                ImeAction::Ignored
            }
        },
        ImeEvent::Disabled => {
            if composing {
                ImeAction::Compose { clear: true }
            } else {
                ImeAction::Ignored
            }
        },
    }
}

/// What follows an input-method event.
pub open spec fn ime_effects(a: ImeAction) -> Effects {
    match a {
        ImeAction::Ignored | ImeAction::Forget => no_effects(),
        ImeAction::Redraw => redrawn(),
        ImeAction::Compose { .. } => Effects { rebuild: true, ..redrawn() },
        ImeAction::Insert => edited(false),
        // Text in the search field changes the match set.
        ImeAction::InsertField(field) => Effects {
            rescan: field is Search,
            scroll_to_cursor: field is Search,
            ..redrawn()
        },
    }
}

impl ImeAction {
    /// What follows the event. Text that goes into the search field has the matches searched
    /// anew and the active one shown; the replace field is only drawn anew. Text that goes
    /// into the document is an edit.
    pub fn effects(self) -> (r: Effects)
        ensures
            r == ime_effects(self),
    {
        match self {
            ImeAction::Ignored | ImeAction::Forget => nothing(),
            ImeAction::Insert => edit_effects(false),
            ImeAction::Redraw => {
                let mut e = nothing();
                e.redraw = true;
                e
            },
            ImeAction::Compose { clear: _ } => {
                let mut e = nothing();
                e.rebuild = true;
                e.redraw = true;
                e
            },
            ImeAction::InsertField(field) => {
                let search = matches!(field, FieldFocus::Search);
                let mut e = nothing();
                e.rescan = search;
                e.scroll_to_cursor = search;
                e.redraw = true;
                e
            },
        }
    }
}

/// Text from an input method has the same consequences in a field of the find bar as typed
/// text, and in the document it is an edit.
pub proof fn law_committed_text_acts_as_typed(field: FieldFocus, acted: bool, revealed: bool)
    ensures
        ime_effects(ImeAction::InsertField(field)) == effects_of(
            Command::EditField(field),
            acted,
            revealed,
        ),
        ime_effects(ImeAction::Insert).after_edit && ime_effects(ImeAction::Insert).rescan,
{
}

/// While the find bar owns the focus, no input method writes into the document.
pub proof fn law_focused_find_bar_takes_compositions(
    event: ImeEvent,
    find: Option<FindState>,
    composing: bool,
)
    requires
        owns_focus(find),
    ensures
        ime_of(event, find, composing) !is Insert,
        ime_of(event, find, composing) matches ImeAction::Compose { clear } ==> clear,
{
}

// ---------------------------------------------------------------------------
// Wakeups
// ---------------------------------------------------------------------------

/// Wakeups sent from background work into the event loop.
#[derive(Debug, Clone, Copy, PartialEq, Eq, Structural)]
pub enum WritEvent {
    GithubUpdated,
    /// A standalone image finished loading (local or remote).
    ImageLoaded,
    /// The watched file changed on disk.
    FileChanged,
    /// The off-thread file read finished.
    FileReloaded,
}

/// What a wakeup does.
#[derive(Debug, Clone, Copy, PartialEq, Eq, Structural)]
pub struct Wake {
    /// The watched file is read on a worker.
    pub read_file: bool,
    /// What was read is taken, and put into the buffer if there is a window.
    pub take_reload: bool,
    /// Fetched suggestions are taken and installed.
    pub take_suggestions: bool,
    /// The document is laid out anew at the next redraw, so a burst of completions
    /// collapses into a single rebuild.
    pub rebuild: bool,
}

/// What a wakeup does. A file without a path is not read, and nothing is laid out without a
/// window.
pub fn user_event(event: WritEvent, has_path: bool, has_window: bool) -> (r: Wake)
    ensures
        r.read_file == (event is FileChanged && has_path),
        r.take_reload == (event is FileReloaded),
        r.take_suggestions == (event is GithubUpdated),
        r.rebuild == ((event is GithubUpdated || event is ImageLoaded) && has_window),
{
    match event {
        WritEvent::FileChanged => Wake {
            read_file: has_path,
            take_reload: false,
            take_suggestions: false,
            rebuild: false,
        },
        WritEvent::FileReloaded => Wake {
            read_file: false,
            take_reload: true,
            take_suggestions: false,
            rebuild: false,
        },
        WritEvent::GithubUpdated => Wake {
            read_file: false,
            take_reload: false,
            take_suggestions: true,
            rebuild: has_window,
        },
        WritEvent::ImageLoaded => Wake {
            read_file: false,
            take_reload: false,
            take_suggestions: false,
            rebuild: has_window,
        },
    }
}

// ---------------------------------------------------------------------------
// The keys
// ---------------------------------------------------------------------------

/// The four arrow keys move the cursor by one step each, in their own direction, and extend
/// the selection exactly while Shift is held.
pub proof fn law_arrow_keys(k: KeyPressView, mods: Modifiers, in_code_block: bool)
    ensures
        ({
            let r = edit_of(k, mods, in_code_block);
            let to = |d: Direction| Some(
                EditView::Move { direction: d, extend: mods.shift, times: 1 },
            );
            &&& k.logical_key == KeyView::Named(NamedKey::ArrowLeft) ==> r == to(Direction::Left)
            &&& k.logical_key == KeyView::Named(NamedKey::ArrowRight) ==> r == to(Direction::Right)
            &&& k.logical_key == KeyView::Named(NamedKey::ArrowUp) ==> r == to(Direction::Up)
            &&& k.logical_key == KeyView::Named(NamedKey::ArrowDown) ==> r == to(Direction::Down)
        }),
{
}

/// Home and End go to the ends of the line, with Ctrl or Super to those of the document;
/// Page Up and Page Down go twenty lines up and down. Shift extends the selection.
pub proof fn law_jump_keys(k: KeyPressView, mods: Modifiers, in_code_block: bool)
    ensures
        ({
            let r = edit_of(k, mods, in_code_block);
            let cmd = mods.control || mods.super_key;
            let to = |d: Direction, n: int| Some(
                EditView::Move { direction: d, extend: mods.shift, times: n },
            );
            &&& k.logical_key == KeyView::Named(NamedKey::Home) && !cmd ==> r == to(
                Direction::LineStart,
                1,
            )
            &&& k.logical_key == KeyView::Named(NamedKey::Home) && cmd ==> r == to(
                Direction::DocStart,
                1,
            )
            &&& k.logical_key == KeyView::Named(NamedKey::End) && !cmd ==> r == to(
                Direction::LineEnd,
                1,
            )
            &&& k.logical_key == KeyView::Named(NamedKey::End) && cmd ==> r == to(
                Direction::DocEnd,
                1,
            )
            &&& k.logical_key == KeyView::Named(NamedKey::PageUp) ==> r == to(Direction::Up, 20)
            &&& k.logical_key == KeyView::Named(NamedKey::PageDown) ==> r == to(
                Direction::Down,
                20,
            )
        }),
{
}

/// The editing keys do what is on them: Enter breaks the line (with Shift, and with Shift and
/// Alt, in its two other ways), Backspace and Delete take out what is before and behind the
/// cursor, Tab nests and Shift+Tab unnests, but in a code block Tab types four spaces.
pub proof fn law_editing_keys(k: KeyPressView, mods: Modifiers, in_code_block: bool)
    ensures
        ({
            let r = edit_of(k, mods, in_code_block);
            &&& k.logical_key == KeyView::Named(NamedKey::Enter) && !mods.shift ==> r == Some(
                EditView::Enter,
            )
            &&& k.logical_key == KeyView::Named(NamedKey::Enter) && mods.shift && !mods.alt ==> r
                == Some(EditView::ShiftEnter)
            &&& k.logical_key == KeyView::Named(NamedKey::Enter) && mods.shift && mods.alt ==> r
                == Some(EditView::ShiftAltEnter)
            &&& k.logical_key == KeyView::Named(NamedKey::Backspace) ==> r == Some(
                EditView::Backspace,
            )
            &&& k.logical_key == KeyView::Named(NamedKey::Delete) ==> r == Some(
                EditView::DeleteForward,
            )
            &&& k.logical_key == KeyView::Named(NamedKey::Tab) && mods.shift ==> r == Some(
                EditView::ShiftTab,
            )
            &&& k.logical_key == KeyView::Named(NamedKey::Tab) && !mods.shift && !in_code_block
                ==> r == Some(EditView::Tab)
            &&& k.logical_key == KeyView::Named(NamedKey::Tab) && !mods.shift && in_code_block
                ==> r == Some(
                EditView::Insert {
                    text: seq![' ', ' ', ' ', ' '],
                    completion: Completion::Nothing,
                },
            )
            &&& k.logical_key == KeyView::Named(NamedKey::Space) ==> r == Some(EditView::Space)
        }),
{
    reveal_strlit("    ");
    assert("    "@ =~= seq![' ', ' ', ' ', ' ']);
}

proof fn lemma_letters()
    ensures
        "a"@ == seq!['a'] && "A"@ == seq!['A'],
        "c"@ == seq!['c'] && "C"@ == seq!['C'],
        "f"@ == seq!['f'] && "F"@ == seq!['F'],
        "h"@ == seq!['h'] && "H"@ == seq!['H'],
        "o"@ == seq!['o'] && "O"@ == seq!['O'],
        "r"@ == seq!['r'] && "R"@ == seq!['R'],
        "s"@ == seq!['s'] && "S"@ == seq!['S'],
        "v"@ == seq!['v'] && "V"@ == seq!['V'],
        "w"@ == seq!['w'] && "W"@ == seq!['W'],
        "x"@ == seq!['x'] && "X"@ == seq!['X'],
        "y"@ == seq!['y'] && "Y"@ == seq!['Y'],
        "z"@ == seq!['z'] && "Z"@ == seq!['Z'],
{
    reveal_strlit("a");
    reveal_strlit("A");
    reveal_strlit("c");
    reveal_strlit("C");
    reveal_strlit("f");
    reveal_strlit("F");
    reveal_strlit("h");
    reveal_strlit("H");
    reveal_strlit("o");
    reveal_strlit("O");
    reveal_strlit("r");
    reveal_strlit("R");
    reveal_strlit("s");
    reveal_strlit("S");
    reveal_strlit("v");
    reveal_strlit("V");
    reveal_strlit("w");
    reveal_strlit("W");
    reveal_strlit("x");
    reveal_strlit("X");
    reveal_strlit("y");
    reveal_strlit("Y");
    reveal_strlit("z");
    reveal_strlit("Z");
}

/// The key types the character, as it is or in upper case.
pub open spec fn key_is(k: KeyView, lower: char, upper: char) -> bool {
    k matches KeyView::Character(s) && s.len() == 1 && (s[0] == lower || s[0] == upper)
}

proof fn lemma_key_is(k: KeyView, c: Seq<char>, d: Seq<char>)
    requires
        c.len() == 1,
        d.len() == 1,
    ensures
        is_letter_key(k, c, d) == key_is(k, c[0], d[0]),
{
    if let KeyView::Character(s) = k {
        if s.len() == 1 {
            assert(s =~= seq![s[0]]);
            assert(c =~= seq![c[0]]);
            assert(d =~= seq![d[0]]);
        }
    }
}

proof fn lemma_letter_keys(k: KeyView)
    ensures
        is_letter_key(k, "a"@, "A"@) == key_is(k, 'a', 'A'),
        is_letter_key(k, "c"@, "C"@) == key_is(k, 'c', 'C'),
        is_letter_key(k, "f"@, "F"@) == key_is(k, 'f', 'F'),
        is_letter_key(k, "h"@, "H"@) == key_is(k, 'h', 'H'),
        is_letter_key(k, "o"@, "O"@) == key_is(k, 'o', 'O'),
        is_letter_key(k, "r"@, "R"@) == key_is(k, 'r', 'R'),
        is_letter_key(k, "s"@, "S"@) == key_is(k, 's', 'S'),
        is_letter_key(k, "v"@, "V"@) == key_is(k, 'v', 'V'),
        is_letter_key(k, "w"@, "W"@) == key_is(k, 'w', 'W'),
        is_letter_key(k, "x"@, "X"@) == key_is(k, 'x', 'X'),
        is_letter_key(k, "y"@, "Y"@) == key_is(k, 'y', 'Y'),
        is_letter_key(k, "z"@, "Z"@) == key_is(k, 'z', 'Z'),
{
    lemma_letters();
    lemma_key_is(k, "a"@, "A"@);
    lemma_key_is(k, "c"@, "C"@);
    lemma_key_is(k, "f"@, "F"@);
    lemma_key_is(k, "h"@, "H"@);
    lemma_key_is(k, "o"@, "O"@);
    lemma_key_is(k, "r"@, "R"@);
    lemma_key_is(k, "s"@, "S"@);
    lemma_key_is(k, "v"@, "V"@);
    lemma_key_is(k, "w"@, "W"@);
    lemma_key_is(k, "x"@, "X"@);
    lemma_key_is(k, "y"@, "Y"@);
    lemma_key_is(k, "z"@, "Z"@);
}

/// With Ctrl or Super, S saves, Z undoes, Shift+Z and Y redo, A selects all and R validates
/// references anew; no other character key does anything.
pub proof fn law_shortcuts(k: KeyPressView, mods: Modifiers, in_code_block: bool)
    requires
        mods.control || mods.super_key,
        k.logical_key is Character,
    ensures
        ({
            let r = edit_of(k, mods, in_code_block);
            let key = k.logical_key;
            &&& key_is(key, 's', 'S') ==> r == Some(EditView::Save)
            &&& key_is(key, 'z', 'Z') && !mods.shift ==> r == Some(EditView::Undo)
            &&& key_is(key, 'z', 'Z') && mods.shift ==> r == Some(EditView::Redo)
            &&& key_is(key, 'y', 'Y') ==> r == Some(EditView::Redo)
            &&& key_is(key, 'a', 'A') ==> r == Some(EditView::SelectAll)
            &&& key_is(key, 'r', 'R') ==> r == Some(EditView::RevalidateRefs)
            &&& !key_is(key, 's', 'S') && !key_is(key, 'z', 'Z') && !key_is(key, 'y', 'Y')
                && !key_is(key, 'a', 'A') && !key_is(key, 'r', 'R') ==> r is None
        }),
{
    lemma_letter_keys(k.logical_key);
}

/// The character is no control character.
pub open spec fn is_plain_char(c: char) -> bool {
    32 <= c as u32 && !(127 <= c as u32 <= 159)
}

/// Without Ctrl and Super, a character key types its text as it is, where there is some and
/// it has no control characters; `>` and the fence characters are completed.
pub proof fn law_character_keys_type(k: KeyPressView, mods: Modifiers, in_code_block: bool)
    requires
        !mods.control && !mods.super_key,
        k.logical_key is Character,
    ensures
        ({
            let r = edit_of(k, mods, in_code_block);
            &&& k.text is None ==> r is None
            &&& k.text matches Some(t) ==> {
                &&& t.len() == 0 ==> r is None
                &&& t.len() > 0 && (forall|i: int| 0 <= i < t.len() ==> is_plain_char(#[trigger] t[i])) ==> (
                r matches Some(EditView::Insert { text, completion }) && text == t && (t == seq![
                    '>',
                ] ==> completion == Completion::BlockquoteMarker) && (t == seq!['`'] || t == seq![
                    '~',
                ] ==> completion == Completion::CodeFence) && (t != seq!['>'] && t != seq!['`']
                    && t != seq!['~'] ==> completion == Completion::Nothing))
                &&& (exists|i: int| 0 <= i < t.len() && !is_plain_char(#[trigger] t[i])) ==> r is None
            }
        }),
{
    reveal_strlit(">");
    reveal_strlit("`");
    reveal_strlit("~");
    assert(">"@ =~= seq!['>']);
    assert("`"@ =~= seq!['`']);
    assert("~"@ =~= seq!['~']);
    assert(">"@[0] != "`"@[0] && ">"@[0] != "~"@[0]);
    if let Some(t) = k.text {
        assert forall|i: int| 0 <= i < t.len() implies is_control(#[trigger] t[i]) == !is_plain_char(t[i]) by {}
        if t.len() > 0 && (forall|i: int| 0 <= i < t.len() ==> is_plain_char(#[trigger] t[i])) {
            assert(is_printable(t));
        }
        if exists|i: int| 0 <= i < t.len() && !is_plain_char(#[trigger] t[i]) {
            let i = choose|i: int| 0 <= i < t.len() && !is_plain_char(#[trigger] t[i]);
            assert(is_control(t[i]));
        }
    }
}

/// The bracket keys fold and unfold: with Ctrl or Super and Shift the section at the cursor,
/// with Alt in place of Shift all of them; with Shift a digit folds to its level. Without
/// Ctrl and Super, or without both Shift and Alt, nothing folds.
pub proof fn law_fold_keys(key: PhysicalKey, mods: Modifiers)
    ensures
        ({
            let r = fold_of(key, mods);
            let on = (mods.control || mods.super_key) && (mods.shift || mods.alt);
            &&& !on ==> r is None
            &&& on && key is BracketLeft && mods.shift ==> r == Some(FoldCommand::FoldAtCursor)
            &&& on && key is BracketLeft && !mods.shift ==> r == Some(FoldCommand::FoldAll)
            &&& on && key is BracketRight && mods.shift ==> r == Some(FoldCommand::UnfoldAtCursor)
            &&& on && key is BracketRight && !mods.shift ==> r == Some(FoldCommand::UnfoldAll)
            &&& on && mods.shift && key is Digit1 ==> r == Some(FoldCommand::ToLevel(1))
            &&& on && mods.shift && key is Digit2 ==> r == Some(FoldCommand::ToLevel(2))
            &&& on && mods.shift && key is Digit3 ==> r == Some(FoldCommand::ToLevel(3))
            &&& on && mods.shift && key is Digit4 ==> r == Some(FoldCommand::ToLevel(4))
            &&& on && mods.shift && key is Digit5 ==> r == Some(FoldCommand::ToLevel(5))
            &&& on && mods.shift && key is Digit6 ==> r == Some(FoldCommand::ToLevel(6))
            &&& !mods.shift && key !is BracketLeft && key !is BracketRight ==> r is None
            &&& key is Other ==> r is None
        }),
{
}

/// Window shortcuts come before everything else: with Ctrl or Super, W closes the window, F
/// finds, H replaces, Shift+O toggles the outline, and the fold shortcuts fold.
pub proof fn law_window_shortcuts(k: KeyPressView, cx: KeyContext)
    requires
        cx.mods.control || cx.mods.super_key,
    ensures
        ({
            let r = action_of(k, cx);
            let key = k.logical_key;
            let folds = fold_of(k.physical_key, cx.mods);
            &&& key_is(key, 'w', 'W') ==> r == KeyActionView::Command(Command::Close)
            &&& key_is(key, 'f', 'F') ==> r == KeyActionView::Command(
                Command::OpenFind { replace: false },
            )
            &&& key_is(key, 'h', 'H') ==> r == KeyActionView::Command(
                Command::OpenFind { replace: true },
            )
            &&& key_is(key, 'o', 'O') && cx.mods.shift ==> r == KeyActionView::Command(
                Command::ToggleOutline,
            )
            &&& folds is Some && !key_is(key, 'w', 'W') && !key_is(key, 'f', 'F') && !key_is(
                key,
                'h',
                'H',
            ) && !key_is(key, 'o', 'O') ==> r == KeyActionView::Command(Command::Fold(folds->0))
        }),
{
    lemma_letter_keys(k.logical_key);
}

/// What the keys do while the find bar owns the focus: Enter goes to the next match and
/// Shift+Enter to the one before; in Replace mode Enter in the replace field replaces the
/// active match, and with Ctrl or Super all of them; Tab changes the field; Alt+R and Alt+C
/// toggle the ways of matching; undo and redo act on the document; the rest edits the field.
pub proof fn law_find_keys(k: KeyView, mods: Modifiers, find: FindState)
    ensures
        ({
            let r = find_command_of(k, mods, find);
            let cmd = mods.control || mods.super_key;
            let enter = k == KeyView::Named(NamedKey::Enter);
            let undo = key_is(k, 'z', 'Z');
            let redo = key_is(k, 'y', 'Y');
            &&& enter && find.mode is Find && !mods.shift ==> r == Command::FindNext
            &&& enter && find.mode is Find && mods.shift ==> r == Command::FindPrev
            &&& enter && find.mode is Replace && cmd ==> r == Command::ReplaceAll
            &&& enter && find.mode is Replace && !cmd && mods.shift ==> r == Command::FindPrev
            &&& enter && find.mode is Replace && !cmd && !mods.shift && find.focus is Replace ==> r
                == Command::ReplaceCurrent
            &&& enter && find.mode is Replace && !cmd && !mods.shift && find.focus is Search ==> r
                == Command::FindNext
            &&& k == KeyView::Named(NamedKey::Tab) ==> r == Command::ToggleField
            &&& cmd && undo && !mods.shift ==> r == Command::FindUndo
            &&& cmd && undo && mods.shift ==> r == Command::FindRedo
            &&& cmd && redo ==> r == Command::FindRedo
            &&& mods.alt && key_is(k, 'r', 'R') ==> r == Command::ToggleRegex
            &&& mods.alt && key_is(k, 'c', 'C') ==> r == Command::ToggleCase
            &&& cmd && key_is(k, 'v', 'V') ==> r == Command::PasteField(find.focus)
            &&& !cmd && !mods.alt && (k is Character || k is Other || k == KeyView::Named(
                NamedKey::Backspace,
            ) || k == KeyView::Named(NamedKey::ArrowLeft)) ==> r == Command::EditField(find.focus)
        }),
{
    lemma_letter_keys(k);
}

/// With Ctrl or Super, and no find bar in the way, C copies and X cuts what is selected, and
/// V pastes.
pub proof fn law_clipboard_keys(k: KeyPressView, cx: KeyContext)
    requires
        cx.mods.control || cx.mods.super_key,
        cx.find is None || !(cx.find->0).focused,
        fold_of(k.physical_key, cx.mods) is None,
    ensures
        ({
            let r = action_of(k, cx);
            let key = k.logical_key;
            &&& key_is(key, 'c', 'C') && cx.has_selection ==> r == KeyActionView::Command(
                Command::Copy,
            )
            &&& key_is(key, 'x', 'X') && cx.has_selection ==> r == KeyActionView::Command(
                Command::Cut,
            )
            &&& key_is(key, 'v', 'V') ==> r == KeyActionView::Command(Command::Paste)
            &&& (key_is(key, 'c', 'C') || key_is(key, 'x', 'X')) && !cx.has_selection ==> r
                is Ignored
        }),
{
    lemma_letter_keys(k.logical_key);
}

/// An open popup with suggestions takes the arrows, Enter, Tab and Escape; one without takes
/// Escape alone. Every other key goes to the document.
pub proof fn law_popup_keys(k: KeyPressView, cx: KeyContext)
    requires
        !cx.mods.control && !cx.mods.super_key,
        cx.find is None,
    ensures
        ({
            let r = action_of(k, cx);
            let key = k.logical_key;
            let e = edit_of(k, cx.mods, cx.in_code_block);
            let plain = if e is Some {
                KeyActionView::Edit(e->0)
            } else {
                KeyActionView::Ignored
            };
            &&& cx.autocomplete is Some && key == KeyView::Named(NamedKey::Escape) ==> r
                == KeyActionView::Command(Command::CloseAutocomplete)
            &&& cx.autocomplete == Some(true) && key == KeyView::Named(NamedKey::ArrowUp) ==> r
                == KeyActionView::Command(Command::AutocompleteUp)
            &&& cx.autocomplete == Some(true) && key == KeyView::Named(NamedKey::ArrowDown) ==> r
                == KeyActionView::Command(Command::AutocompleteDown)
            &&& cx.autocomplete == Some(true) && (key == KeyView::Named(NamedKey::Enter) || key
                == KeyView::Named(NamedKey::Tab)) ==> r == KeyActionView::Command(
                Command::AcceptAutocomplete,
            )
            &&& cx.autocomplete is None ==> r == plain
            &&& cx.autocomplete == Some(false) && key != KeyView::Named(NamedKey::Escape) ==> r
                == plain
            &&& key != KeyView::Named(NamedKey::Escape) && key != KeyView::Named(
                NamedKey::ArrowUp,
            ) && key != KeyView::Named(NamedKey::ArrowDown) && key != KeyView::Named(
                NamedKey::Enter,
            ) && key != KeyView::Named(NamedKey::Tab) ==> r == plain
        }),
{
}

/// Two edits with one view are one edit: what the contracts say of an edit, they say of all
/// of it.
pub proof fn law_edits_are_what_they_say(a: Edit, b: EditView)
    requires
        a@ == b,
    ensures
        a is Enter <==> b is Enter,
        a is ShiftEnter <==> b is ShiftEnter,
        a is ShiftAltEnter <==> b is ShiftAltEnter,
        a is Backspace <==> b is Backspace,
        a is DeleteForward <==> b is DeleteForward,
        a is Tab <==> b is Tab,
        a is ShiftTab <==> b is ShiftTab,
        a is Space <==> b is Space,
        a is Save <==> b is Save,
        a is Undo <==> b is Undo,
        a is Redo <==> b is Redo,
        a is SelectAll <==> b is SelectAll,
        a is RevalidateRefs <==> b is RevalidateRefs,
        a matches Edit::Move { direction, extend, times } ==> b == (EditView::Move {
            direction,
            extend,
            times: times as int,
        }),
        a matches Edit::Insert { text, completion } ==> b == (EditView::Insert {
            text: text@,
            completion,
        }),
{
}

// ---------------------------------------------------------------------------
// What follows a command
// ---------------------------------------------------------------------------

/// What each command has follow. Closing the window and copying have nothing follow; all
/// other commands that found something to act on end with a redraw.
pub proof fn law_effects(c: Command, acted: bool, revealed: bool)
    ensures
        ({
            let e = effects_of(c, acted, revealed);
            let idle = c is Close || c is Copy || (c is Paste && !acted);
            let edits = c is FindUndo || c is FindRedo || c is ReplaceAll || c is ReplaceCurrent
                || c is Cut || c is AcceptAutocomplete || (c is Paste && acted);
            let search = c == Command::PasteField(FieldFocus::Search) || c == Command::EditField(
                FieldFocus::Search,
            );
            let steps = c is FindNext || c is FindPrev;
            &&& e.redraw == !idle
            &&& e.after_edit == edits
            &&& e.rescan == (edits || search)
            &&& e.autocomplete == (c is Paste && acted)
            &&& e.resize_find_bar == (c is OpenFind || c is CloseFind)
            &&& e.rebuild == (c is OpenFind || c is CloseFind || c is ToggleOutline || c is Fold
                || (steps && acted && revealed))
            &&& e.scroll_to_cursor == (c is OpenFind || c is Fold || (steps && acted) || c
                is ToggleRegex || c is ToggleCase || search)
        }),
{
}

/// Text of an input method goes where the focus is: into the find bar's field while the bar
/// owns it, and into the document otherwise. A composition is shown in the document alone,
/// and an empty one with nothing to clear does nothing.
pub proof fn law_input_methods(event: ImeEvent, find: Option<FindState>, composing: bool)
    ensures
        ({
            let r = ime_of(event, find, composing);
            let bar = find matches Some(f) && f.focused;
            &&& event is Enabled ==> r is Forget
            &&& event == (ImeEvent::Commit { empty: false }) && !bar ==> r is Insert
            &&& event == (ImeEvent::Commit { empty: false }) && bar ==> r == ImeAction::InsertField(
                (find->0).focus,
            )
            &&& event == (ImeEvent::Preedit { empty: false }) && !bar ==> r == (
            ImeAction::Compose { clear: false })
            &&& event is Preedit && bar ==> r is Redraw
            &&& event == (ImeEvent::Preedit { empty: true }) && !bar && composing ==> r == (
            ImeAction::Compose { clear: true })
            &&& event == (ImeEvent::Preedit { empty: true }) && !bar && !composing ==> r is Ignored
            &&& event == (ImeEvent::Commit { empty: true }) && bar ==> r is Redraw
            &&& event == (ImeEvent::Commit { empty: true }) && !bar && composing ==> r == (
            ImeAction::Compose { clear: true })
            &&& event == (ImeEvent::Commit { empty: true }) && !bar && !composing ==> r is Ignored
            &&& event is Disabled && composing ==> r == (ImeAction::Compose { clear: true })
            &&& event is Disabled && !composing ==> r is Ignored
        }),
{
}

/// What an input-method event has follow.
pub proof fn law_ime_effects(a: ImeAction)
    ensures
        ({
            let e = ime_effects(a);
            let search = a == ImeAction::InsertField(FieldFocus::Search);
            &&& e.redraw == !(a is Ignored || a is Forget)
            &&& e.rebuild == (a is Compose)
            &&& e.after_edit == (a is Insert)
            &&& e.rescan == (a is Insert || search)
            &&& e.scroll_to_cursor == search
            &&& !e.autocomplete && !e.resize_find_bar
        }),
{
}

} // verus!
