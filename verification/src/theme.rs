//! Colors by their role. What a role looks like is the theme's business.
use vstd::prelude::*;

verus! {

/// A color of the editor theme.
#[derive(Debug, Clone, Copy, PartialEq, Eq, Structural)]
pub enum ThemeColor {
    Background,
    Foreground,
    Selection,
    Surface,
    Comment,
    Red,
    Orange,
    Yellow,
    Green,
    Cyan,
    Purple,
    Pink,
    /// The color of a syntax highlighting capture.
    Highlight(usize),
}

} // verus!
