//! The panels over the document.
use writ::overlay::{issue_segments, parse_title_markdown, segments_to_line, PanelSeg};
use writ::theme::ThemeColor;
use writ::validation::IssueStatus;

const C: ThemeColor = ThemeColor::Purple;

fn texts(segs: &[PanelSeg]) -> Vec<&str> {
    segs.iter().map(|s| s.text.as_str()).collect()
}

#[test]
fn plain_title_is_one_plain_span() {
    let segs = parse_title_markdown("just a title", C);
    assert_eq!(texts(&segs), vec!["just a title"]);
    assert!(!segs[0].bold && !segs[0].italic && !segs[0].mono);
}

#[test]
fn empty_title_yields_one_empty_span() {
    let segs = parse_title_markdown("", C);
    assert_eq!(texts(&segs), vec![""]);
}

#[test]
fn code_span_strips_backticks_and_sets_mono() {
    let segs = parse_title_markdown("Fix `foo()` crash", C);
    assert_eq!(texts(&segs), vec!["Fix ", "foo()", " crash"]);
    assert!(segs[1].mono && !segs[1].bold && !segs[1].italic);
    assert!(!segs[0].mono && !segs[2].mono);
    for s in &segs {
        assert!(!s.text.contains('`'));
    }
}

#[test]
fn bold_span_strips_delimiters_and_sets_bold() {
    let segs = parse_title_markdown("**bold**", C);
    assert_eq!(texts(&segs), vec!["bold"]);
    assert!(segs[0].bold && !segs[0].italic && !segs[0].mono);
    assert!(!segs[0].text.contains('*'));
}

#[test]
fn star_and_underscore_italics() {
    let star = parse_title_markdown("*it*", C);
    assert_eq!(texts(&star), vec!["it"]);
    assert!(star[0].italic && !star[0].bold && !star[0].mono);

    let under = parse_title_markdown("_it_", C);
    assert_eq!(texts(&under), vec!["it"]);
    assert!(under[0].italic && !under[0].bold && !under[0].mono);

    for segs in [&star, &under] {
        assert!(!segs[0].text.contains('*') && !segs[0].text.contains('_'));
    }
}

#[test]
fn unterminated_backtick_stays_literal() {
    let segs = parse_title_markdown("a ` b", C);
    assert_eq!(texts(&segs), vec!["a ` b"]);
    assert!(!segs[0].mono);
}

#[test]
fn mixed_markdown_in_title() {
    let segs = parse_title_markdown("**b** and `c` and *i*", C);
    assert_eq!(texts(&segs), vec!["b", " and ", "c", " and ", "i"]);
    assert!(segs[0].bold);
    assert!(segs[2].mono);
    assert!(segs[4].italic);
}

#[test]
fn issue_segments_prefixes_plain_then_title_spans() {
    let segs = issue_segments("●", 42, "Fix `foo`", IssueStatus::Open);
    assert_eq!(texts(&segs), vec!["● ", "#42 ", "Fix ", "foo"]);
    assert!(!segs[0].mono && !segs[1].mono);
    assert!(segs[3].mono);
}

#[test]
fn segments_to_line_mono_run_sets_mono_flag() {
    let segs = vec![
        PanelSeg::plain("x ".to_string(), C),
        PanelSeg {
            text: "code".to_string(),
            color: C,
            bold: false,
            italic: false,
            mono: true,
        },
    ];
    let line = segments_to_line(&segs);
    assert_eq!(line.text, "x code");
    assert_eq!(line.runs.len(), 2);
    assert!(!line.runs[0].mono && line.runs[1].mono);
    assert_eq!(line.runs[1].range, 2..6);
}
