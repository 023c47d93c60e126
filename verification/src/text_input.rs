//! A reusable, headless single-line text-input core: pure text/caret/selection state.
//! Adapters (find bar, filter box, goto-line prompt) layer input handling and rendering
//! on top of this.
//!
//! Movement steps whole chars (Unicode scalar values), not grapheme clusters. Char
//! boundaries never split a multibyte codepoint.
use crate::keys::{
    is_control, is_letter_key, is_printable, typed_text, KeyPress, KeyPressView, KeyView, Modifiers,
    NamedKey,
};
use crate::syntax::{at_cut, is_cut, lemma_cut_is_boundary};
use crate::text::{byte_len, lemma_encode_concat, slice};
use std::ops::Range;
use vstd::prelude::*;
use vstd::string::*;
use vstd::utf8::*;

verus! {

/// A line of text with a caret and a selection.
#[derive(Debug)]
pub struct TextField {
    text: String,
    /// byte offset into `text`, always on a char boundary
    caret: usize,
    /// selection anchor byte offset; None = collapsed
    anchor: Option<usize>,
}

/// What a [`TextField`] says: the bytes of its text, and byte offsets.
pub struct FieldView {
    pub bytes: Seq<u8>,
    pub caret: int,
    pub anchor: Option<int>,
}

impl View for TextField {
    type V = FieldView;

    closed spec fn view(&self) -> FieldView {
        FieldView {
            bytes: encode_utf8(self.text@),
            caret: self.caret as int,
            anchor: match self.anchor {
                Some(a) => Some(a as int),
                None => None,
            },
        }
    }
}

/// The last place before `i` where a character starts; 0 where there is none.
pub open spec fn prev_cut(bytes: Seq<u8>, i: int) -> int
    decreases i,
{
    if i <= 1 {
        0
    } else if is_cut(bytes, i - 1) {
        i - 1
    } else {
        prev_cut(bytes, i - 1)
    }
}

/// The first place after `i` where a character starts; the end where there is none.
pub open spec fn next_cut(bytes: Seq<u8>, i: int) -> int
    decreases bytes.len() - i,
{
    if i + 1 >= bytes.len() {
        bytes.len() as int
    } else if is_cut(bytes, i + 1) {
        i + 1
    } else {
        next_cut(bytes, i + 1)
    }
}

impl FieldView {
    /// The text is text; the caret and the anchor are between characters of it.
    pub open spec fn wf(self) -> bool {
        &&& valid_utf8(self.bytes)
        &&& is_cut(self.bytes, self.caret)
        &&& self.anchor matches Some(a) ==> is_cut(self.bytes, a)
    }

    /// The selected bytes, if there are any.
    pub open spec fn selection(self) -> Option<(int, int)> {
        match self.anchor {
            Some(a) => if a < self.caret {
                Some((a, self.caret))
            } else if a > self.caret {
                Some((self.caret, a))
            } else {
                None
            },
            None => None,
        }
    }

    /// With the bytes `s..e` replaced, and the caret behind what replaces them.
    pub open spec fn replaced(self, s: int, e: int, by: Seq<u8>) -> FieldView {
        FieldView {
            bytes: self.bytes.subrange(0, s) + by + self.bytes.subrange(
                e,
                self.bytes.len() as int,
            ),
            caret: s + by.len(),
            anchor: None,
        }
    }

    /// Without the selected text.
    pub open spec fn without_selection(self) -> FieldView {
        match self.selection() {
            Some((s, e)) => self.replaced(s, e, seq![]),
            None => self,
        }
    }

    /// With some text in the place of the selection, or at the caret.
    pub open spec fn inserted(self, text: Seq<u8>) -> FieldView {
        let f = self.without_selection();
        f.replaced(f.caret, f.caret, text)
    }

    /// Without the selected text, or without the character before the caret.
    pub open spec fn backspaced(self) -> FieldView {
        if self.selection() is Some {
            self.without_selection()
        } else if self.caret == 0 {
            self
        } else {
            self.replaced(prev_cut(self.bytes, self.caret), self.caret, seq![])
        }
    }

    /// Without the selected text, or without the character after the caret.
    pub open spec fn deleted_forward(self) -> FieldView {
        if self.selection() is Some {
            self.without_selection()
        } else if self.caret >= self.bytes.len() {
            self
        } else {
            self.replaced(self.caret, next_cut(self.bytes, self.caret), seq![])
        }
    }

    /// With the caret somewhere else: the selection grows from where it started, or from
    /// the caret, where `extend` is set; else there is none.
    pub open spec fn moved(self, to: int, extend: bool) -> FieldView {
        FieldView {
            caret: to,
            anchor: if extend {
                if self.anchor is Some {
                    self.anchor
                } else {
                    Some(self.caret)
                }
            } else {
                None
            },
            ..self
        }
    }

    /// One character to the left, or to the start of the selection.
    pub open spec fn moved_left(self, extend: bool) -> FieldView {
        match self.selection() {
            Some((s, _)) => if extend {
                self.moved(prev_cut(self.bytes, self.caret), true)
            } else {
                self.moved(s, false)
            },
            None => self.moved(prev_cut(self.bytes, self.caret), extend),
        }
    }

    /// One character to the right, or to the end of the selection.
    pub open spec fn moved_right(self, extend: bool) -> FieldView {
        match self.selection() {
            Some((_, e)) => if extend {
                self.moved(next_cut(self.bytes, self.caret), true)
            } else {
                self.moved(e, false)
            },
            None => self.moved(next_cut(self.bytes, self.caret), extend),
        }
    }

    /// With everything selected.
    pub open spec fn all_selected(self) -> FieldView {
        FieldView { caret: self.bytes.len() as int, anchor: Some(0), ..self }
    }

    /// After a key press, if the field has a use for it.
    pub open spec fn after_key(self, key: KeyPressView, mods: Modifiers) -> Option<FieldView> {
        let shift = mods.shift;
        match key.logical_key {
            KeyView::Named(NamedKey::Backspace) => Some(self.backspaced()),
            KeyView::Named(NamedKey::Delete) => Some(self.deleted_forward()),
            KeyView::Named(NamedKey::ArrowLeft) => Some(self.moved_left(shift)),
            KeyView::Named(NamedKey::ArrowRight) => Some(self.moved_right(shift)),
            KeyView::Named(NamedKey::Home) => Some(self.moved(0, shift)),
            KeyView::Named(NamedKey::End) => Some(self.moved(self.bytes.len() as int, shift)),
            _ => if mods.command() {
                if is_letter_key(key.logical_key, "a"@, "A"@) {
                    Some(self.all_selected())
                } else {
                    None
                }
            } else {
                match typed_text(key) {
                    Some(text) => Some(self.inserted(encode_utf8(text))),
                    None => None,
                }
            },
        }
    }
}

proof fn lemma_prev_cut(bytes: Seq<u8>, i: int)
    requires
        valid_utf8(bytes),
        0 <= i <= bytes.len(),
    ensures
        is_cut(bytes, prev_cut(bytes, i)),
        0 <= prev_cut(bytes, i) <= i,
        i > 0 ==> prev_cut(bytes, i) < i,
        forall|k: int| prev_cut(bytes, i) < k < i ==> !is_cut(bytes, k),
    decreases i,
{
    if i <= 1 {
        lemma_start_is_cut(bytes);
    } else if !is_cut(bytes, i - 1) {
        lemma_prev_cut(bytes, i - 1);
    }
}

proof fn lemma_next_cut(bytes: Seq<u8>, i: int)
    requires
        valid_utf8(bytes),
        0 <= i <= bytes.len(),
    ensures
        is_cut(bytes, next_cut(bytes, i)),
        i <= next_cut(bytes, i) <= bytes.len(),
        i < bytes.len() ==> next_cut(bytes, i) > i,
        forall|k: int| i < k < next_cut(bytes, i) ==> !is_cut(bytes, k),
    decreases bytes.len() - i,
{
    if i + 1 < bytes.len() && !is_cut(bytes, i + 1) {
        lemma_next_cut(bytes, i + 1);
    }
}

proof fn lemma_start_is_cut(bytes: Seq<u8>)
    requires
        valid_utf8(bytes),
    ensures
        is_cut(bytes, 0),
        is_cut(bytes, bytes.len() as int),
{
    is_char_boundary_start_end_of_seq(bytes);
    lemma_cut_is_boundary(bytes, 0);
}

/// A cut between two texts, or further on in the second one, is a cut of both together.
proof fn lemma_concat_cuts(a: Seq<char>, b: Seq<char>)
    ensures
        is_cut(encode_utf8(a + b), encode_utf8(a).len() as int),
        encode_utf8(a + b) == encode_utf8(a) + encode_utf8(b),
{
    lemma_encode_concat(a, b);
    encode_utf8_valid_utf8(b);
    lemma_start_is_cut(encode_utf8(b));
    let all = encode_utf8(a + b);
    let n = encode_utf8(a).len() as int;
    if n < all.len() {
        assert(all[n] == encode_utf8(b)[0]);
    }
}

impl TextField {
    #[verifier::type_invariant]
    spec fn inv(self) -> bool {
        self@.wf()
    }

    /// An empty field.
    pub fn new() -> (r: Self)
        ensures
            r@ == (FieldView { bytes: seq![], caret: 0, anchor: None }),
    {
        let text = String::new();
        proof {
            assert(encode_utf8(text@) =~= Seq::<u8>::empty());
            encode_utf8_valid_utf8(text@);
        }
        TextField { text, caret: 0, anchor: None }
    }

    /// A field with some text, and the caret behind it.
    pub fn with_text(s: &str) -> (r: Self)
        ensures
            r@ == (FieldView {
                bytes: s.spec_bytes(),
                caret: s.spec_bytes().len() as int,
                anchor: None,
            }),
    {
        proof {
            encode_utf8_valid_utf8(s@);
        }
        TextField { text: s.to_owned(), caret: byte_len(s), anchor: None }
    }

    /// The text.
    pub fn text(&self) -> (r: &str)
        ensures
            r.spec_bytes() == self@.bytes,
    {
        self.text.as_str()
    }

    /// The byte offset of the caret.
    pub fn caret(&self) -> (r: usize)
        ensures
            r == self@.caret,
            is_char_boundary(self@.bytes, r as int),
            r <= self@.bytes.len(),
    {
        proof {
            use_type_invariant(self);
            lemma_cut_is_boundary(self@.bytes, self@.caret);
        }
        self.caret
    }

    /// The selected byte range, if there is one.
    pub fn selected_range(&self) -> (r: Option<Range<usize>>)
        ensures
            match r {
                Some(range) => self@.selection() == Some((range.start as int, range.end as int))
                    && range.start < range.end <= self@.bytes.len() && is_char_boundary(
                    self@.bytes,
                    range.start as int,
                ) && is_char_boundary(self@.bytes, range.end as int),
                None => self@.selection() is None,
            },
    {
        proof {
            use_type_invariant(self);
            lemma_cut_is_boundary(self@.bytes, self@.caret);
            if let Some(a) = self@.anchor {
                lemma_cut_is_boundary(self@.bytes, a);
            }
        }
        match self.anchor {
            Some(a) => if a < self.caret {
                Some(a..self.caret)
            } else if a > self.caret {
                Some(self.caret..a)
            } else {
                None
            },
            None => None,
        }
    }

    /// Replaces the text; the caret goes behind it.
    pub fn set_text(&mut self, s: &str)
        ensures
            final(self)@ == (FieldView {
                bytes: s.spec_bytes(),
                caret: s.spec_bytes().len() as int,
                anchor: None,
            }),
    {
        *self = Self::with_text(s);
    }

    /// Removes the text.
    pub fn clear(&mut self)
        ensures
            final(self)@ == (FieldView { bytes: seq![], caret: 0, anchor: None }),
    {
        *self = Self::new();
    }

    /// Replaces a byte range; the caret goes behind what replaces it.
    fn replace(&mut self, start: usize, end: usize, s: &str)
        requires
            start <= end,
            is_cut(old(self)@.bytes, start as int),
            is_cut(old(self)@.bytes, end as int),
        ensures
            final(self)@ == old(self)@.replaced(start as int, end as int, s.spec_bytes()),
    {
        let ghost before = self@;
        let len = byte_len(self.text.as_str());
        proof {
            use_type_invariant(&*self);
            lemma_cut_is_boundary(before.bytes, start as int);
            lemma_cut_is_boundary(before.bytes, end as int);
            is_char_boundary_start_end_of_seq(before.bytes);
        }
        let head = slice(self.text.as_str(), 0, start);
        let tail = slice(self.text.as_str(), end, len);
        let mut text = head.to_owned();
        text.append(s);
        let caret = byte_len(text.as_str());
        let ghost front = text@;
        proof {
            lemma_encode_concat(head@, s@);
            lemma_concat_cuts(front, tail@);
        }
        text.append(tail);
        proof {
            encode_utf8_valid_utf8(text@);
            assert(encode_utf8(text@) =~= before.replaced(
                start as int,
                end as int,
                s.spec_bytes(),
            ).bytes);
        }
        *self = TextField { text, caret, anchor: None };
    }

    /// Types some text, in the place of the selection.
    pub fn insert(&mut self, s: &str)
        ensures
            final(self)@ == old(self)@.inserted(s.spec_bytes()),
    {
        self.delete_selection();
        proof {
            use_type_invariant(&*self);
        }
        let caret = self.caret;
        self.replace(caret, caret, s);
    }

    /// Removes the selected text, and says whether there was any.
    pub fn delete_selection(&mut self) -> (r: bool)
        ensures
            r == (old(self)@.selection() is Some),
            final(self)@ == old(self)@.without_selection(),
    {
        proof {
            use_type_invariant(&*self);
        }
        match self.selected_range() {
            Some(range) => {
                self.replace(range.start, range.end, "");
                proof {
                    reveal_strlit("");
                    assert(""@ =~= Seq::<char>::empty());
                    assert(encode_utf8(""@) =~= Seq::<u8>::empty());
                }
                true
            },
            None => false,
        }
    }

    /// Removes the selected text, or the character before the caret.
    pub fn backspace(&mut self)
        ensures
            final(self)@ == old(self)@.backspaced(),
    {
        if self.delete_selection() {
            return;
        }
        if self.caret == 0 {
            return;
        }
        let caret = self.caret;
        proof {
            use_type_invariant(&*self);
        }
        let prev = self.prev_char_boundary(caret);
        proof {
            lemma_prev_cut(self@.bytes, caret as int);
            reveal_strlit("");
            assert(""@ =~= Seq::<char>::empty());
            assert(encode_utf8(""@) =~= Seq::<u8>::empty());
        }
        self.replace(prev, caret, "");
    }

    /// Removes the selected text, or the character after the caret.
    pub fn delete_forward(&mut self)
        ensures
            final(self)@ == old(self)@.deleted_forward(),
    {
        if self.delete_selection() {
            return;
        }
        if self.caret >= byte_len(self.text.as_str()) {
            return;
        }
        let caret = self.caret;
        proof {
            use_type_invariant(&*self);
        }
        let next = self.next_char_boundary(caret);
        proof {
            lemma_next_cut(self@.bytes, caret as int);
            reveal_strlit("");
            assert(""@ =~= Seq::<char>::empty());
            assert(encode_utf8(""@) =~= Seq::<u8>::empty());
        }
        self.replace(caret, next, "");
    }

    /// Moves the caret.
    fn move_to(&mut self, to: usize, extend: bool)
        requires
            is_cut(old(self)@.bytes, to as int),
        ensures
            final(self)@ == old(self)@.moved(to as int, extend),
    {
        proof {
            use_type_invariant(&*self);
        }
        let anchor = if extend {
            match self.anchor {
                Some(a) => Some(a),
                None => Some(self.caret),
            }
        } else {
            None
        };
        *self = TextField { text: self.text.clone(), caret: to, anchor };
    }

    /// Moves one character to the left, or to the start of the selection.
    pub fn move_left(&mut self, extend: bool)
        ensures
            final(self)@ == old(self)@.moved_left(extend),
    {
        proof {
            use_type_invariant(&*self);
            lemma_prev_cut(self@.bytes, self@.caret);
        }
        if !extend {
            if let Some(range) = self.selected_range() {
                self.move_to(range.start, false);
                return;
            }
        }
        let to = self.prev_char_boundary(self.caret);
        self.move_to(to, extend);
    }

    /// Moves one character to the right, or to the end of the selection.
    pub fn move_right(&mut self, extend: bool)
        ensures
            final(self)@ == old(self)@.moved_right(extend),
    {
        proof {
            use_type_invariant(&*self);
            lemma_next_cut(self@.bytes, self@.caret);
        }
        if !extend {
            if let Some(range) = self.selected_range() {
                self.move_to(range.end, false);
                return;
            }
        }
        let to = self.next_char_boundary(self.caret);
        self.move_to(to, extend);
    }

    /// Moves to the start.
    pub fn home(&mut self, extend: bool)
        ensures
            final(self)@ == old(self)@.moved(0, extend),
    {
        proof {
            use_type_invariant(&*self);
            lemma_start_is_cut(self@.bytes);
        }
        self.move_to(0, extend);
    }

    /// Moves to the end.
    pub fn end(&mut self, extend: bool)
        ensures
            final(self)@ == old(self)@.moved(old(self)@.bytes.len() as int, extend),
    {
        proof {
            use_type_invariant(&*self);
            lemma_start_is_cut(self@.bytes);
        }
        let to = byte_len(self.text.as_str());
        self.move_to(to, extend);
    }

    /// Selects everything.
    pub fn select_all(&mut self)
        ensures
            final(self)@ == old(self)@.all_selected(),
    {
        proof {
            use_type_invariant(&*self);
            lemma_start_is_cut(self@.bytes);
        }
        let caret = byte_len(self.text.as_str());
        *self = TextField { text: self.text.clone(), caret, anchor: Some(0) };
    }

    fn prev_char_boundary(&self, offset: usize) -> (r: usize)
        requires
            offset <= self@.bytes.len(),
        ensures
            r == prev_cut(self@.bytes, offset as int),
    {
        let bytes = self.text.as_str().as_bytes();
        if offset <= 1 {
            return 0;
        }
        let mut i: usize = offset - 1;
        while i > 0 && !at_cut(bytes, i)
            invariant
                bytes@ == self@.bytes,
                i < offset <= bytes@.len(),
                prev_cut(bytes@, offset as int) == prev_cut(bytes@, i + 1),
            decreases i,
        {
            i -= 1;
        }
        i
    }

    fn next_char_boundary(&self, offset: usize) -> (r: usize)
        requires
            offset <= self@.bytes.len(),
        ensures
            r == next_cut(self@.bytes, offset as int),
    {
        let bytes = self.text.as_str().as_bytes();
        let len = bytes.len();
        if offset >= len {
            return len;
        }
        let mut i: usize = offset + 1;
        while i < len && !at_cut(bytes, i)
            invariant
                bytes@ == self@.bytes,
                len == bytes@.len(),
                offset < i <= len,
                next_cut(bytes@, offset as int) == next_cut(bytes@, i - 1),
            decreases len - i,
        {
            i += 1;
        }
        i
    }
}

impl Default for TextField {
    fn default() -> (r: Self)
        ensures
            r@ == (FieldView { bytes: seq![], caret: 0, anchor: None }),
    {
        Self::new()
    }
}

/// Map a key press to a `TextField` mutation, returning whether it was consumed. Enter,
/// Tab, and Escape are intentionally *not* handled here — the shell owns those (submit /
/// dismiss). Ctrl+V (paste) is also the shell's job, since it holds the clipboard.
pub fn apply_key(field: &mut TextField, event: &KeyPress, mods: Modifiers) -> (r: bool)
    ensures
        match old(field)@.after_key(event@, mods) {
            Some(f) => r && final(field)@ == f,
            None => !r && final(field)@ == old(field)@,
        },
{
    let shift = mods.shift;
    if event.logical_key.is_named(NamedKey::Backspace) {
        field.backspace();
        return true;
    }
    if event.logical_key.is_named(NamedKey::Delete) {
        field.delete_forward();
        return true;
    }
    if event.logical_key.is_named(NamedKey::ArrowLeft) {
        field.move_left(shift);
        return true;
    }
    if event.logical_key.is_named(NamedKey::ArrowRight) {
        field.move_right(shift);
        return true;
    }
    if event.logical_key.is_named(NamedKey::Home) {
        field.home(shift);
        return true;
    }
    if event.logical_key.is_named(NamedKey::End) {
        field.end(shift);
        return true;
    }
    // Never while a modifier that isn't Shift is held, so that Ctrl+<key> chords don't leak
    // literal characters into the field.
    if mods.is_command() {
        if event.logical_key.is_letter("a", "A") {
            field.select_all();
            return true;
        }
        return false;
    }
    match event.typed() {
        Some(t) => {
            field.insert(t);
            true
        },
        None => false,
    }
}

// ---------------------------------------------------------------------------
// Laws
// ---------------------------------------------------------------------------

proof fn lemma_one_char(c: char)
    ensures
        encode_utf8(seq![c]).len() > 0,
        forall|k: int| 0 < k < encode_utf8(seq![c]).len() ==> !is_cut(encode_utf8(seq![c]), k),
{
    let chars = seq![c];
    let bytes = encode_utf8(chars);
    encode_utf8_valid_utf8(chars);
    encode_utf8_first_scalar(chars);
    assert(chars.drop_first() =~= Seq::<char>::empty());
    assert(encode_utf8(chars.drop_first()) =~= Seq::<u8>::empty());
    assert forall|k: int| 0 < k < bytes.len() implies !is_cut(bytes, k) by {
        reveal_with_fuel(is_char_boundary, 2);
        lemma_cut_is_boundary(bytes, k);
        assert(length_of_first_scalar(bytes) == bytes.len());
        assert(!is_char_boundary(bytes, k));
    }
}

/// Backspace takes back a typed character.
pub proof fn law_backspace_undoes_typing(f: FieldView, c: char)
    requires
        f.wf(),
        f.selection() is None,
    ensures
        f.inserted(encode_utf8(seq![c])).backspaced() == (FieldView { anchor: None, ..f }),
{
    let t = encode_utf8(seq![c]);
    lemma_one_char(c);
    let g = f.inserted(t);
    let head = f.bytes.subrange(0, f.caret);
    let tail = f.bytes.subrange(f.caret, f.bytes.len() as int);
    assert(g.bytes =~= head + t + tail);
    encode_utf8_valid_utf8(seq![c]);
    lemma_start_is_cut(t);
    assert(g.bytes[f.caret] == t[0]);
    assert(is_cut(g.bytes, f.caret));
    assert forall|k: int| f.caret < k < g.caret implies !is_cut(g.bytes, k) by {
        assert(g.bytes[k] == t[k - f.caret]);
        assert(!is_cut(t, k - f.caret));
    }
    lemma_prev_cut_is(g.bytes, g.caret, f.caret);
    assert(g.backspaced().bytes =~= f.bytes);
}

proof fn lemma_prev_cut_is(bytes: Seq<u8>, i: int, p: int)
    requires
        0 <= p < i <= bytes.len(),
        is_cut(bytes, p),
        forall|k: int| p < k < i ==> !is_cut(bytes, k),
    ensures
        prev_cut(bytes, i) == p,
    decreases i,
{
    if i > 1 && p < i - 1 {
        assert(!is_cut(bytes, i - 1));
        lemma_prev_cut_is(bytes, i - 1, p);
    }
}

/// A step to the right and one back lead to where the caret was.
pub proof fn law_right_then_left(f: FieldView)
    requires
        f.wf(),
        f.selection() is None,
        f.caret < f.bytes.len(),
    ensures
        f.moved_right(false).moved_left(false) == f.moved(f.caret, false),
{
    lemma_next_cut(f.bytes, f.caret);
    lemma_prev_cut_is(f.bytes, next_cut(f.bytes, f.caret), f.caret);
}

/// Typing over a full selection leaves what was typed, and nothing else.
pub proof fn law_select_all_replaces(f: FieldView, text: Seq<u8>)
    requires
        f.wf(),
    ensures
        f.all_selected().inserted(text) == (FieldView {
            bytes: text,
            caret: text.len() as int,
            anchor: None,
        }),
{
    let g = f.all_selected().without_selection();
    assert(g.bytes =~= Seq::<u8>::empty());
    assert(f.all_selected().inserted(text).bytes =~= text);
}

// ---------------------------------------------------------------------------
// What the keys do to the text
// ---------------------------------------------------------------------------

/// `lo..hi` is what is selected: the bytes between the caret and another anchor.
pub open spec fn is_selected(f: FieldView, lo: int, hi: int) -> bool {
    &&& f.anchor is Some
    &&& f.anchor->0 != f.caret
    &&& lo < hi
    &&& (lo == f.caret && hi == f.anchor->0) || (hi == f.caret && lo == f.anchor->0)
}

/// Nothing is selected.
pub open spec fn nothing_selected(f: FieldView) -> bool {
    f.anchor is None || f.anchor->0 == f.caret
}

/// Typed text goes in at the caret, or takes the place of what is selected, and the caret
/// goes behind it.
pub proof fn law_typing(f: FieldView, text: Seq<u8>, lo: int, hi: int)
    requires
        f.wf(),
    ensures
        ({
            let r = f.inserted(text);
            let n = f.bytes.len() as int;
            &&& nothing_selected(f) ==> r.bytes == f.bytes.subrange(0, f.caret) + text
                + f.bytes.subrange(f.caret, n) && r.caret == f.caret + text.len()
            &&& is_selected(f, lo, hi) ==> r.bytes == f.bytes.subrange(0, lo) + text
                + f.bytes.subrange(hi, n) && r.caret == lo + text.len()
            &&& r.anchor is None
        }),
{
    let n = f.bytes.len() as int;
    let r = f.inserted(text);
    if is_selected(f, lo, hi) {
        let g = f.without_selection();
        assert(g.bytes =~= f.bytes.subrange(0, lo) + f.bytes.subrange(hi, n));
        assert(r.bytes =~= f.bytes.subrange(0, lo) + text + f.bytes.subrange(hi, n));
    }
}

/// `p..q` is one character of the text.
pub open spec fn is_one_char(bytes: Seq<u8>, p: int, q: int) -> bool {
    &&& 0 <= p < q <= bytes.len()
    &&& is_char_boundary(bytes, p) && is_char_boundary(bytes, q)
    &&& forall|k: int| p < k < q ==> !#[trigger] is_char_boundary(bytes, k)
}

proof fn lemma_one_char_cuts(bytes: Seq<u8>, p: int, q: int)
    requires
        valid_utf8(bytes),
        is_one_char(bytes, p, q),
    ensures
        is_cut(bytes, p),
        is_cut(bytes, q),
        forall|k: int| p < k < q ==> !is_cut(bytes, k),
        prev_cut(bytes, q) == p,
        next_cut(bytes, p) == q,
{
    lemma_cut_is_boundary(bytes, p);
    lemma_cut_is_boundary(bytes, q);
    assert forall|k: int| p < k < q implies !is_cut(bytes, k) by {
        lemma_cut_is_boundary(bytes, k);
        assert(!is_char_boundary(bytes, k));
    }
    lemma_prev_cut_is(bytes, q, p);
    lemma_next_cut(bytes, p);
    if next_cut(bytes, p) > q {
        assert(!is_cut(bytes, q));
    }
}

/// Backspace takes out what is selected, or the character before the caret; at the start it
/// does nothing. Delete takes out what is selected, or the character behind the caret, which
/// stays; at the end it does nothing.
pub proof fn law_deleting(f: FieldView, p: int, q: int, lo: int, hi: int)
    requires
        f.wf(),
    ensures
        ({
            let b = f.backspaced();
            let d = f.deleted_forward();
            let n = f.bytes.len() as int;
            &&& is_selected(f, lo, hi) ==> b.bytes == f.bytes.subrange(0, lo) + f.bytes.subrange(
                hi,
                n,
            ) && b.caret == lo && b.anchor is None && d == b
            &&& nothing_selected(f) && is_one_char(f.bytes, p, q) && q == f.caret ==> b.bytes
                == f.bytes.subrange(0, p) + f.bytes.subrange(q, n) && b.caret == p
                && b.anchor is None
            &&& nothing_selected(f) && is_one_char(f.bytes, p, q) && p == f.caret ==> d.bytes
                == f.bytes.subrange(0, p) + f.bytes.subrange(q, n) && d.caret == p
                && d.anchor is None
            &&& nothing_selected(f) && f.caret == 0 ==> b == f
            &&& nothing_selected(f) && f.caret == n ==> d == f
        }),
{
    let n = f.bytes.len() as int;
    if is_selected(f, lo, hi) {
        assert(f.backspaced().bytes =~= f.bytes.subrange(0, lo) + f.bytes.subrange(hi, n));
    }
    if nothing_selected(f) && is_one_char(f.bytes, p, q) {
        lemma_one_char_cuts(f.bytes, p, q);
        if q == f.caret {
            assert(f.backspaced().bytes =~= f.bytes.subrange(0, p) + f.bytes.subrange(q, n));
        }
        if p == f.caret {
            assert(f.deleted_forward().bytes =~= f.bytes.subrange(0, p) + f.bytes.subrange(q, n));
        }
    }
}

/// The arrows move the caret by one character to their side, Shift extends the selection
/// from where it started; without Shift a selection collapses to its end on that side. Home
/// and End go to the ends of the text. Moving changes no text.
pub proof fn law_moving(f: FieldView, p: int, q: int, lo: int, hi: int, extend: bool)
    requires
        f.wf(),
    ensures
        ({
            let l = f.moved_left(extend);
            let r = f.moved_right(extend);
            let home = f.moved(0, extend);
            let end = f.moved(f.bytes.len() as int, extend);
            let anchor = if !extend {
                None
            } else if f.anchor is Some {
                f.anchor
            } else {
                Some(f.caret)
            };
            &&& l.bytes == f.bytes && r.bytes == f.bytes && home.bytes == f.bytes && end.bytes
                == f.bytes
            &&& l.anchor == anchor && r.anchor == anchor && home.anchor == anchor && end.anchor
                == anchor
            &&& home.caret == 0 && end.caret == f.bytes.len()
            &&& (extend || nothing_selected(f)) && is_one_char(f.bytes, p, q) && q == f.caret
                ==> l.caret == p
            &&& (extend || nothing_selected(f)) && is_one_char(f.bytes, p, q) && p == f.caret
                ==> r.caret == q
            &&& !extend && is_selected(f, lo, hi) ==> l.caret == lo && r.caret == hi
            &&& (extend || nothing_selected(f)) && f.caret == 0 ==> l.caret == 0
            &&& (extend || nothing_selected(f)) && f.caret == f.bytes.len() ==> r.caret == f.caret
            &&& f.all_selected().bytes == f.bytes && f.all_selected().caret == f.bytes.len()
                && f.all_selected().anchor == Some(0int)
        }),
{
    if is_one_char(f.bytes, p, q) {
        lemma_one_char_cuts(f.bytes, p, q);
    }
}

/// What is selected is what is between the caret and the anchor.
pub proof fn law_selection(f: FieldView, lo: int, hi: int)
    ensures
        is_selected(f, lo, hi) ==> f.selection() == Some((lo, hi)),
        nothing_selected(f) ==> f.selection() is None,
{
}

/// What each key does to a field. Enter, Tab and Escape are left alone where they type
/// nothing, and so is every command but "select all".
pub proof fn law_field_keys(f: FieldView, k: KeyPressView, mods: Modifiers)
    ensures
        ({
            let r = f.after_key(k, mods);
            let cmd = mods.control || mods.super_key;
            let key = k.logical_key;
            let a = key matches KeyView::Character(s) && s.len() == 1 && (s[0] == 'a' || s[0]
                == 'A');
            &&& key == KeyView::Named(NamedKey::Backspace) ==> r == Some(f.backspaced())
            &&& key == KeyView::Named(NamedKey::Delete) ==> r == Some(f.deleted_forward())
            &&& key == KeyView::Named(NamedKey::ArrowLeft) ==> r == Some(f.moved_left(mods.shift))
            &&& key == KeyView::Named(NamedKey::ArrowRight) ==> r == Some(
                f.moved_right(mods.shift),
            )
            &&& key == KeyView::Named(NamedKey::Home) ==> r == Some(f.moved(0, mods.shift))
            &&& key == KeyView::Named(NamedKey::End) ==> r == Some(
                f.moved(f.bytes.len() as int, mods.shift),
            )
            &&& key is Character && cmd && a ==> r == Some(f.all_selected())
            &&& key is Character && cmd && !a ==> r is None
            &&& (key is Character || key == KeyView::Named(NamedKey::Space)) && !cmd
                && k.text is Some && k.text->0.len() == 1 && 32 <= k.text->0[0] as u32 <= 126 ==> r
                == Some(f.inserted(encode_utf8(k.text->0)))
            &&& (key == KeyView::Named(NamedKey::Enter) || key == KeyView::Named(NamedKey::Tab)
                || key == KeyView::Named(NamedKey::Escape)) && (k.text is None || (
            k.text->0.len() > 0 && k.text->0[0] as u32 <= 31)) ==> r is None
        }),
{
    reveal_strlit("a");
    reveal_strlit("A");
    assert("a"@ =~= seq!['a']);
    assert("A"@ =~= seq!['A']);
    if let KeyView::Character(s) = k.logical_key {
        if s.len() == 1 {
            assert(s =~= seq![s[0]]);
        }
        assert(s == seq!['a'] ==> s[0] == 'a');
        assert(s == seq!['A'] ==> s[0] == 'A');
    }
    if let Some(t) = k.text {
        if t.len() == 1 && 32 <= t[0] as u32 <= 126 {
            assert forall|i: int| 0 <= i < t.len() implies !is_control(#[trigger] t[i]) by {}
            assert(is_printable(t));
        }
        if t.len() > 0 && t[0] as u32 <= 31 {
            assert(is_control(t[0]));
            assert(!is_printable(t));
        }
    }
}

} // verus!
