//! Key presses.
use crate::marker::text_if_any;
use crate::text::{chars_vec, str_eq};
use vstd::prelude::*;
use vstd::string::*;

verus! {

/// A key that types no character.
#[derive(Debug, Clone, Copy, PartialEq, Eq, Structural)]
pub enum NamedKey {
    Enter,
    Backspace,
    Delete,
    Tab,
    Space,
    Escape,
    ArrowLeft,
    ArrowRight,
    ArrowUp,
    ArrowDown,
    Home,
    End,
    PageUp,
    PageDown,
}

/// What a key means in the keyboard layout.
#[derive(Debug, Clone, PartialEq)]
pub enum Key {
    Named(NamedKey),
    Character(String),
    Other,
}

/// Where a key is on the keyboard.
#[derive(Debug, Clone, Copy, PartialEq, Eq, Structural)]
pub enum PhysicalKey {
    BracketLeft,
    BracketRight,
    Digit1,
    Digit2,
    Digit3,
    Digit4,
    Digit5,
    Digit6,
    Other,
}

/// The modifier keys that are held.
#[derive(Debug, Clone, Copy, PartialEq, Eq, Structural)]
pub struct Modifiers {
    pub shift: bool,
    pub alt: bool,
    pub control: bool,
    pub super_key: bool,
}

impl Modifiers {
    /// Control or the platform's command key is held.
    pub open spec fn command(self) -> bool {
        self.control || self.super_key
    }

    /// Whether control or the platform's command key is held.
    pub fn is_command(&self) -> (r: bool)
        ensures
            r == self.command(),
    {
        self.control || self.super_key
    }
}

/// A key press, with the text that it types.
#[derive(Debug, Clone, PartialEq)]
pub struct KeyPress {
    pub logical_key: Key,
    pub physical_key: PhysicalKey,
    pub text: Option<String>,
}

/// What a [`Key`] says.
pub enum KeyView {
    Named(NamedKey),
    Character(Seq<char>),
    Other,
}

impl View for Key {
    type V = KeyView;

    open spec fn view(&self) -> KeyView {
        match *self {
            Key::Named(k) => KeyView::Named(k),
            Key::Character(s) => KeyView::Character(s@),
            Key::Other => KeyView::Other,
        }
    }
}

/// What a [`KeyPress`] says.
pub struct KeyPressView {
    pub logical_key: KeyView,
    pub physical_key: PhysicalKey,
    pub text: Option<Seq<char>>,
}

impl View for KeyPress {
    type V = KeyPressView;

    open spec fn view(&self) -> KeyPressView {
        KeyPressView {
            logical_key: self.logical_key@,
            physical_key: self.physical_key,
            text: text_if_any(self.text),
        }
    }
}

/// The key types a letter, given in lower and upper case.
pub open spec fn is_letter_key(k: KeyView, lower: Seq<char>, upper: Seq<char>) -> bool {
    match k {
        KeyView::Character(s) => s == lower || s == upper,
        _ => false,
    }
}

impl Key {
    /// Whether the key is a named one.
    pub fn is_named(&self, name: NamedKey) -> (r: bool)
        ensures
            r == (self@ == KeyView::Named(name)),
    {
        match self {
            Key::Named(k) => *k == name,
            _ => false,
        }
    }

    /// Whether the key types a letter, given in lower and upper case.
    pub fn is_letter(&self, lower: &str, upper: &str) -> (r: bool)
        ensures
            r == is_letter_key(self@, lower@, upper@),
    {
        match self {
            Key::Character(s) => str_eq(s.as_str(), lower) || str_eq(s.as_str(), upper),
            _ => false,
        }
    }
}

/// A control character.
pub open spec fn is_control(c: char) -> bool {
    c as u32 <= 0x1f || 0x7f <= c as u32 <= 0x9f
}

/// The text can be typed: there is some, without control characters (Enter and Tab
/// arrive as "\r" and "\t").
pub open spec fn is_printable(text: Seq<char>) -> bool {
    text.len() > 0 && forall|i: int| 0 <= i < text.len() ==> !is_control(#[trigger] text[i])
}

/// Whether a text can be typed.
pub fn printable(text: &str) -> (r: bool)
    ensures
        r == is_printable(text@),
{
    let v = chars_vec(text);
    let mut i: usize = 0;
    while i < v.len()
        invariant
            v@ == text@,
            i <= v@.len(),
            forall|k: int| 0 <= k < i ==> !is_control(#[trigger] v@[k]),
        decreases v@.len() - i,
    {
        let c = v[i] as u32;
        if c <= 0x1f || (0x7f <= c && c <= 0x9f) {
            assert(is_control(v@[i as int]));
            return false;
        }
        i += 1;
    }
    v.len() > 0
}

/// The text that a key press types, where it can be typed.
pub open spec fn typed_text(k: KeyPressView) -> Option<Seq<char>> {
    match k.text {
        Some(t) => if is_printable(t) {
            Some(t)
        } else {
            None
        },
        None => None,
    }
}

impl KeyPress {
    /// The text that the key press types, where it can be typed.
    pub fn typed(&self) -> (r: Option<&str>)
        ensures
            match r {
                Some(t) => typed_text(self@) == Some(t@),
                None => typed_text(self@) is None,
            },
    {
        match &self.text {
            Some(t) => if printable(t.as_str()) {
                Some(t.as_str())
            } else {
                None
            },
            None => None,
        }
    }
}

/// Control and the command key are the same to a shortcut.
pub proof fn law_command_keys(m: Modifiers)
    ensures
        m.command() <==> m.control || m.super_key,
{
}

/// A key types its text unless there is none or it holds a control character: one below the
/// space, or from delete to the end of the second block of controls.
pub proof fn law_typed_text(k: KeyPressView, text: Seq<char>, i: int)
    ensures
        k.text is None ==> typed_text(k) is None,
        k.text == Some(text) && text.len() == 0 ==> typed_text(k) is None,
        k.text == Some(text) && 0 <= i < text.len() && (text[i] as u32) < 0x20 ==> typed_text(
            k,
        ) is None,
        k.text == Some(text) && 0 <= i < text.len() && 0x7f <= text[i] as u32 && text[i] as u32
            <= 0x9f ==> typed_text(k) is None,
        k.text == Some(text) && text.len() > 0 && (forall|j: int|
            0 <= j < text.len() ==> (0x20 <= (#[trigger] text[j]) as u32 && text[j] as u32 <= 0x7e)
                || text[j] as u32 >= 0xa0) ==> typed_text(k) == Some(text),
{
    if k.text == Some(text) && 0 <= i < text.len() && is_control(text[i]) {
        assert(!is_printable(text));
    }
}

/// A letter key is one that types the letter in either case, and no other key is.
pub proof fn law_letter_keys(k: KeyView, lower: Seq<char>, upper: Seq<char>)
    ensures
        is_letter_key(k, lower, upper) <==> k == KeyView::Character(lower) || k
            == KeyView::Character(upper),
{
}

} // verus!
