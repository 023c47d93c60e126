//! Panels, frames and other chrome.
use std::collections::hash_map::DefaultHasher;
use std::hash::{Hash, Hasher};
use writ::demo::{demo_events, DemoEvent, DemoStep};
use writ::image_cache::{start_renders, ImageCache, ImageState};
use writ::markdown_view::MarkdownView;
use writ::math::{MathJob, Rgb};
use writ::outline::{
    current_heading_index, drop_before_ellipsis, ellipsize, fit_heading, level_color, row_tint,
    HeadingInfo, RowTint,
};
use writ::overlay::{
    hover_segments, hover_target_at_offset, status_color, suggestion_segments, user_segments,
    AutocompleteSuggestion,
};
use writ::raster::{padded_row, tight_rows};
use writ::refs::{GitHubRef, NakedUrl, RawGitHubMatch};
use writ::text_engine::{StyleProperty, StyleRun};
use writ::theme::ThemeColor;
use writ::title_bar::FileInfo;
use writ::validation::{IssueStatus, ValidationState};
use writ::window::{
    frame, resize_cursor, resize_edge, ResizeCursor, ResizeEdge, Sides,
};

fn sides(top: bool, bottom: bool, left: bool, right: bool) -> Sides {
    Sides { top, bottom, left, right }
}

#[test]
fn rows_are_padded_and_stripped() {
    assert_eq!(padded_row(0), 0);
    assert_eq!(padded_row(1), 256);
    assert_eq!(padded_row(64), 256);
    assert_eq!(padded_row(65), 512);
    let mut data = vec![0u8; 512];
    data[0..4].copy_from_slice(&[1, 2, 3, 4]);
    data[256..260].copy_from_slice(&[5, 6, 7, 8]);
    assert_eq!(tight_rows(&data, 1, 2), vec![1, 2, 3, 4, 5, 6, 7, 8]);
    assert!(tight_rows(&data, 1, 0).is_empty());
}

#[test]
fn corners_and_edges_resize() {
    assert_eq!(resize_edge(sides(true, false, true, false)), Some(ResizeEdge::TopLeft));
    assert_eq!(resize_edge(sides(true, false, false, true)), Some(ResizeEdge::TopRight));
    assert_eq!(resize_edge(sides(true, true, false, false)), Some(ResizeEdge::Top));
    assert_eq!(resize_edge(sides(false, true, true, true)), Some(ResizeEdge::BottomLeft));
    assert_eq!(resize_edge(sides(false, true, false, true)), Some(ResizeEdge::BottomRight));
    assert_eq!(resize_edge(sides(false, false, true, true)), Some(ResizeEdge::Left));
    assert_eq!(resize_edge(sides(false, false, false, true)), Some(ResizeEdge::Right));
    assert_eq!(resize_edge(sides(false, false, false, false)), None);
    assert_eq!(resize_cursor(ResizeEdge::Bottom), ResizeCursor::UpDown);
    assert_eq!(resize_cursor(ResizeEdge::Left), ResizeCursor::LeftRight);
    assert_eq!(resize_cursor(ResizeEdge::BottomRight), ResizeCursor::UpLeftDownRight);
    assert_eq!(resize_cursor(ResizeEdge::BottomLeft), ResizeCursor::UpRightDownLeft);
}

#[test]
fn tiled_windows_lose_their_frame() {
    let free = frame(sides(false, false, false, false));
    assert!(free.shadow && free.round_top_left && free.borders.bottom);
    let tiled = frame(sides(false, false, true, false));
    assert!(!tiled.shadow && !tiled.borders.left && tiled.borders.right);
    assert!(!tiled.round_top_left && !tiled.round_bottom_left);
    assert!(tiled.round_top_right && tiled.round_bottom_right);
}

#[test]
fn file_titles() {
    let title = |name: Option<&str>, dirty| {
        FileInfo { name: name.map(|n| n.to_string()), dirty }.title()
    };
    assert_eq!(title(Some("a.md"), false), "a.md");
    assert_eq!(title(Some("a.md"), true), "* a.md");
    assert_eq!(title(None, true), "* untitled");
}

#[test]
fn headings_fit_by_dropping_characters() {
    assert_eq!(ellipsize("Heading", 4), "Hea…");
    assert_eq!(ellipsize("Heading", 0), "…");
    assert_eq!(ellipsize("é", 9), "é…");
    assert_eq!(drop_before_ellipsis("Hea…"), "He…");
    let wider_than = |n: usize| move |s: &str| s.chars().count() > n;
    assert_eq!(fit_heading("Heading", 3, wider_than(7)), "Heading");
    assert_eq!(fit_heading("Heading", 6, wider_than(4)), "Hea…");
    assert_eq!(fit_heading("Heading", 2, wider_than(4)), "H…");
    assert_eq!(fit_heading("Heading", 5, wider_than(0)), "…");
    assert_eq!(fit_heading("", 5, wider_than(0)), "");
}

#[test]
fn outline_rows() {
    let heading = |line| HeadingInfo { line, level: 1, text: String::new(), byte_offset: 0 };
    let headings = [heading(1), heading(1), heading(5)];
    assert_eq!(current_heading_index(&headings, 0), None);
    assert_eq!(current_heading_index(&headings, 1), Some(1));
    assert_eq!(current_heading_index(&headings, 5), Some(2));
    assert_eq!(row_tint(1, Some(1), Some(1)), RowTint::Current);
    assert_eq!(row_tint(1, Some(0), Some(1)), RowTint::Hover);
    assert_eq!(row_tint(1, None, None), RowTint::Plain);
    assert_eq!(level_color(2), ThemeColor::Cyan);
    assert_eq!(level_color(9), ThemeColor::Comment);
}

#[test]
fn streaming_in_pieces_is_streaming_at_once() {
    let mut a: MarkdownView<u8, u8> = MarkdownView::new();
    let mut b: MarkdownView<u8, u8> = MarkdownView::new();
    a.push_str("# Str");
    a.push_str("eaming\n");
    b.push_str("# Streaming\n");
    assert_eq!(a.text(), b.text());
    a.set_scroll(5);
    a.set_layout(3);
    a.push_str("more");
    assert_eq!(a.layout(), None);
    assert_eq!(a.scroll(), 5);
    a.set_layout(4);
    a.set_markdown("x");
    assert_eq!((a.text(), a.layout(), a.scroll()), ("x", None, 0));
}

#[test]
fn images_invalidate_the_layout() {
    let mut view: MarkdownView<u8, u8> = MarkdownView::new();
    view.set_layout(1);
    assert!(!view.set_image_bytes("x.png", None));
    assert_eq!(view.layout(), Some(&1));
    assert!(matches!(view.image("x.png"), Some(ImageState::Failed)));
    assert!(view.set_image_bytes("x.png", Some(9)));
    assert_eq!(view.layout(), None);
    assert!(matches!(view.image("x.png"), Some(ImageState::Loaded(9))));
    view.set_layout(2);
    view.set_image_failed("y.png");
    assert_eq!(view.layout(), None);
    assert!(view.image("z.png").is_none());
}

#[test]
fn renders_start_once_per_key() {
    let mut cache: ImageCache<u8> = ImageCache::new();
    cache.set_failed("b");
    let jobs = [("a", 0), ("b", 1), ("a", 2), ("c", 3)].map(|(k, j)| (k.to_string(), j));
    assert_eq!(start_renders(&jobs, &mut cache), vec![0, 3]);
    assert!(matches!(cache.get("a"), Some(ImageState::Loading)));
    assert!(matches!(cache.get("b"), Some(ImageState::Failed)));
    cache.finish("a", Some(7));
    cache.finish("c", None);
    assert!(matches!(cache.get("a"), Some(ImageState::Loaded(7))));
    assert!(matches!(cache.get("c"), Some(ImageState::Failed)));
    assert!(start_renders(&jobs, &mut cache).is_empty());
}

#[test]
fn keys_are_hashes_in_hexadecimal() {
    let src = "graph LR; A-->B";
    let mut h = DefaultHasher::new();
    src.hash(&mut h);
    assert_eq!(writ::mermaid::key_for(src), format!("mermaid:{:016x}", h.finish()));

    let job = MathJob {
        latex: "x^2".to_string(),
        display: true,
        font_px: 16.0f32.to_bits(),
        scale: 2.0f32.to_bits(),
        fg: Rgb { r: 1, g: 2, b: 3 },
    };
    let mut h = DefaultHasher::new();
    job.latex.hash(&mut h);
    job.display.hash(&mut h);
    job.font_px.hash(&mut h);
    job.scale.hash(&mut h);
    (job.fg.r, job.fg.g, job.fg.b).hash(&mut h);
    assert_eq!(writ::math::key_for(&job), format!("math:{:016x}", h.finish()));
}

#[test]
fn demo_types_waits_and_acts() {
    let script = [
        DemoStep::Type("aé".to_string()),
        DemoStep::Wait(70),
        DemoStep::Action("enter"),
    ];
    let rest = DemoEvent::Wait(500);
    let types = |at| DemoEvent::Type { step: 0, at };
    assert_eq!(
        demo_events(&script),
        vec![
            rest,
            types(0),
            DemoEvent::CharDelay,
            types(1),
            DemoEvent::CharDelay,
            DemoEvent::Wait(70),
            DemoEvent::Action(2),
            DemoEvent::KeyDelay,
            rest,
        ]
    );
}

#[test]
fn runs_carry_their_properties() {
    let mut run = StyleRun::new(0..3, ThemeColor::Cyan);
    assert_eq!(run.properties(), vec![StyleProperty::Brush(ThemeColor::Cyan)]);
    run.mono = true;
    run.underline = true;
    assert_eq!(
        run.properties(),
        vec![
            StyleProperty::Brush(ThemeColor::Cyan),
            StyleProperty::Monospace,
            StyleProperty::Underline,
        ]
    );
}

#[test]
fn popover_follows_the_validation_state() {
    let user = GitHubRef::User { username: "ann".to_string() };
    let shown = |state: Option<ValidationState>| -> String {
        hover_segments(&user, &state, None).iter().map(|s| s.text.clone()).collect()
    };
    assert_eq!(shown(None), "… @ann");
    assert_eq!(shown(Some(ValidationState::Pending)), "… @ann");
    assert_eq!(shown(Some(ValidationState::Invalid)), "✗ @ann");
    assert_eq!(shown(Some(ValidationState::Valid(None))), "✓ @ann");
    assert_eq!(status_color(IssueStatus::Merged), ThemeColor::Purple);
}

#[test]
fn rows_of_users() {
    let texts = |segs: Vec<writ::overlay::PanelSeg>| -> String {
        segs.iter().map(|s| s.text.clone()).collect()
    };
    let with_name = user_segments("ann", &Some("Ann".to_string()));
    let row = AutocompleteSuggestion::User {
        login: "ann".to_string(),
        name: Some("Ann".to_string()),
    };
    assert_eq!(texts(suggestion_segments(&row)), texts(with_name));
    assert_eq!(texts(user_segments("ann", &None)), "@ann");
}

#[test]
fn hover_finds_references_before_urls() {
    let user = GitHubRef::User { username: "ann".to_string() };
    let refs = [RawGitHubMatch { reference: user.clone(), byte_range: 4..8 }];
    let urls = [NakedUrl {
        url: "https://github.com/bob".to_string(),
        byte_range: 6..20,
        github_ref: Some(GitHubRef::User { username: "bob".to_string() }),
    }];
    assert_eq!(hover_target_at_offset(&refs, &urls, 7), Some((user, 4)));
    assert_eq!(hover_target_at_offset(&refs, &urls, 8).unwrap().1, 6);
    assert_eq!(hover_target_at_offset(&refs, &urls, 20), None);
}
