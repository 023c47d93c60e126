//! Syntax highlighting captures, and the languages whose tokens this crate finds
//! itself.
use crate::text::str_eq;
use crate::tokenize::{highlight_latex, highlight_mermaid, latex_spans, mermaid_spans};
use std::ops::Range;
use vstd::prelude::*;
use vstd::string::*;

verus! {

/// A syntax highlighting capture in a code block.
#[derive(Debug, Clone, PartialEq)]
pub struct HighlightSpan {
    pub range: Range<usize>,
    pub highlight_id: usize,
}

/// A category of tokens that has a color of its own.
#[derive(Debug, Clone, Copy, PartialEq, Eq, Structural)]
pub enum Capture {
    Keyword,
    Function,
    Type,
    String,
    Number,
    Comment,
    Operator,
    Constant,
    PunctuationSpecial,
}

/// How many captures there are.
pub const CAPTURE_COUNT: usize = 9;

/// The number of a capture.
pub open spec fn capture_id(c: Capture) -> usize {
    match c {
        Capture::Keyword => 0,
        Capture::Function => 1,
        Capture::Type => 2,
        Capture::String => 3,
        Capture::Number => 4,
        Capture::Comment => 5,
        Capture::Operator => 6,
        Capture::Constant => 7,
        Capture::PunctuationSpecial => 8,
    }
}

/// The name of a capture.
pub open spec fn capture_text(c: Capture) -> Seq<char> {
    match c {
        Capture::Keyword => "keyword"@,
        Capture::Function => "function"@,
        Capture::Type => "type"@,
        Capture::String => "string"@,
        Capture::Number => "number"@,
        Capture::Comment => "comment"@,
        Capture::Operator => "operator"@,
        Capture::Constant => "constant"@,
        Capture::PunctuationSpecial => "punctuation.special"@,
    }
}

/// The number of a capture.
pub fn highlight_id(c: Capture) -> (r: usize)
    ensures
        r == capture_id(c),
        r < CAPTURE_COUNT,
{
    match c {
        Capture::Keyword => 0,
        Capture::Function => 1,
        Capture::Type => 2,
        Capture::String => 3,
        Capture::Number => 4,
        Capture::Comment => 5,
        Capture::Operator => 6,
        Capture::Constant => 7,
        Capture::PunctuationSpecial => 8,
    }
}

/// Finds the tokens of source code.
pub struct Highlighter {}

/// The language is one that is highlighted here.
pub open spec fn is_supported(language: Seq<char>) -> bool {
    language == "mermaid"@ || language == "latex"@ || language == "tex"@
}

impl Highlighter {
    /// A highlighter.
    pub fn new() -> Self {
        Highlighter {  }
    }

    /// The name of the capture that a number stands for; "" for other numbers.
    pub fn capture_name(id: usize) -> (r: &'static str)
        ensures
            forall|c: Capture| #[trigger] capture_id(c) == id ==> r@ == capture_text(c),
            id >= CAPTURE_COUNT ==> r@ == ""@,
    {
        match id {
            0 => "keyword",
            1 => "function",
            2 => "type",
            3 => "string",
            4 => "number",
            5 => "comment",
            6 => "operator",
            7 => "constant",
            8 => "punctuation.special",
            _ => "",
        }
    }

    /// Whether a language is highlighted.
    pub fn supports_language(&self, language: &str) -> (r: bool)
        ensures
            r == is_supported(language@),
    {
        str_eq(language, "mermaid") || str_eq(language, "latex") || str_eq(language, "tex")
    }

    /// The tokens of some source code; none where the language is not supported.
    pub fn highlight(&self, code: &str, language: &str) -> (r: Vec<HighlightSpan>)
        ensures
            language@ == "mermaid"@ ==> r@ == mermaid_spans(code.spec_bytes(), 0),
            language@ == "latex"@ || language@ == "tex"@ ==> r@ == latex_spans(
                code.spec_bytes(),
                0,
            ),
            !is_supported(language@) ==> r@.len() == 0,
    {
        proof {
            reveal_strlit("mermaid");
            reveal_strlit("latex");
            reveal_strlit("tex");
            assert("mermaid"@.len() != "latex"@.len());
            assert("mermaid"@.len() != "tex"@.len());
        }
        if str_eq(language, "mermaid") {
            highlight_mermaid(code)
        } else if str_eq(language, "latex") || str_eq(language, "tex") {
            highlight_latex(code)
        } else {
            Vec::new()
        }
    }
}

/// Captures have different numbers, and each number has its name.
pub proof fn law_captures_differ(a: Capture, b: Capture)
    ensures
        capture_id(a) == capture_id(b) ==> a == b,
        capture_text(Capture::Keyword) == seq!['k', 'e', 'y', 'w', 'o', 'r', 'd'],
        capture_text(Capture::Function) == seq!['f', 'u', 'n', 'c', 't', 'i', 'o', 'n'],
        capture_text(Capture::Type) == seq!['t', 'y', 'p', 'e'],
        capture_text(Capture::String) == seq!['s', 't', 'r', 'i', 'n', 'g'],
        capture_text(Capture::Number) == seq!['n', 'u', 'm', 'b', 'e', 'r'],
        capture_text(Capture::Comment) == seq!['c', 'o', 'm', 'm', 'e', 'n', 't'],
        capture_text(Capture::Operator) == seq!['o', 'p', 'e', 'r', 'a', 't', 'o', 'r'],
        capture_text(Capture::Constant) == seq!['c', 'o', 'n', 's', 't', 'a', 'n', 't'],
        capture_text(Capture::PunctuationSpecial) == "punctuation.special"@,
{
    reveal_strlit("keyword");
    reveal_strlit("function");
    reveal_strlit("type");
    reveal_strlit("string");
    reveal_strlit("number");
    reveal_strlit("comment");
    reveal_strlit("operator");
    reveal_strlit("constant");
}

/// Mermaid and LaTeX, by its two names, are supported, and no other language.
pub proof fn law_supported_languages(language: Seq<char>)
    ensures
        is_supported(language) <==> language == seq!['m', 'e', 'r', 'm', 'a', 'i', 'd'] || language
            == seq!['l', 'a', 't', 'e', 'x'] || language == seq!['t', 'e', 'x'],
{
    reveal_strlit("mermaid");
    reveal_strlit("latex");
    reveal_strlit("tex");
    assert("mermaid"@ =~= seq!['m', 'e', 'r', 'm', 'a', 'i', 'd']);
    assert("latex"@ =~= seq!['l', 'a', 't', 'e', 'x']);
    assert("tex"@ =~= seq!['t', 'e', 'x']);
}

} // verus!
