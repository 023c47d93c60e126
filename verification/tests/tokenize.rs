//! Highlighting mermaid and LaTeX.
use writ::highlight::{HighlightSpan, Highlighter};
use writ::tokenize::{highlight_latex, highlight_mermaid};

/// Map each token's text to its capture category, for readable assertions.
fn cats(src: &str, spans: &[HighlightSpan]) -> Vec<(String, &'static str)> {
    spans
        .iter()
        .map(|s| {
            (
                src[s.range.clone()].to_string(),
                Highlighter::capture_name(s.highlight_id),
            )
        })
        .collect()
}

fn cat_of<'a>(cats: &'a [(String, &'static str)], text: &str) -> Option<&'a str> {
    cats.iter().find(|(t, _)| t == text).map(|(_, c)| *c)
}

#[test]
fn mermaid_categories() {
    let src = "flowchart LR\n  A[Start] --> B{X}\n  B -->|yes| C\n  %% note\n  pie \"a\" : 42";
    let c = cats(src, &highlight_mermaid(src));
    assert_eq!(cat_of(&c, "flowchart"), Some("keyword"));
    assert_eq!(cat_of(&c, "LR"), Some("constant"));
    assert_eq!(cat_of(&c, "-->"), Some("operator"));
    // The edge label `|yes|` is a string, kept separate from the arrow `-->`.
    assert_eq!(cat_of(&c, "|yes|"), Some("string"));
    assert_eq!(cat_of(&c, "pie"), Some("keyword"));
    assert_eq!(cat_of(&c, "\"a\""), Some("string"));
    assert_eq!(cat_of(&c, "42"), Some("number"));
    // The `%%` comment runs to end of line.
    assert!(c.iter().any(|(t, cat)| t == "%% note" && *cat == "comment"));
    // A plain node id emits no span (renders foreground).
    assert_eq!(cat_of(&c, "Start"), None);
}

#[test]
fn mermaid_arrow_does_not_eat_identifiers() {
    // The `o` in `foo`/`bar` is not an arrow char, so only `-->` is the operator.
    let src = "foo-->bar";
    let c = cats(src, &highlight_mermaid(src));
    assert_eq!(c, vec![("-->".to_string(), "operator")]);
}

#[test]
fn latex_categories() {
    let src = "\\frac{1}{2} + x^2 = \\alpha \\\\ \\begin{matrix} % c";
    let c = cats(src, &highlight_latex(src));
    assert_eq!(cat_of(&c, "\\frac"), Some("function"));
    assert_eq!(cat_of(&c, "\\alpha"), Some("function"));
    assert_eq!(cat_of(&c, "^"), Some("operator"));
    assert_eq!(cat_of(&c, "+"), Some("operator"));
    assert_eq!(cat_of(&c, "="), Some("operator"));
    assert_eq!(cat_of(&c, "1"), Some("number"));
    assert_eq!(cat_of(&c, "\\\\"), Some("punctuation.special"));
    assert_eq!(cat_of(&c, "\\begin"), Some("keyword"));
    assert_eq!(cat_of(&c, "matrix"), Some("type"));
    assert!(c.iter().any(|(t, cat)| t == "% c" && *cat == "comment"));
}

#[test]
fn registered_through_highlighter() {
    let h = Highlighter::new();
    assert!(h.supports_language("mermaid"));
    assert!(h.supports_language("latex"));
    assert!(h.supports_language("tex"));
    assert!(!h.highlight("flowchart TD", "mermaid").is_empty());
    assert!(!h.highlight("\\frac{1}{2}", "latex").is_empty());
}

#[test]
fn mermaid_spans_stay_on_their_line() {
    let src = "flowchart LR\n  A[Start\n  B -->|yes\n  \"open\n  %% note\n  {x\n";
    let spans = highlight_mermaid(src);
    assert!(!spans.is_empty());
    for s in spans {
        assert!(!src[s.range.clone()].contains('\n'));
    }
}
