//! Mermaid diagrams in the image cache.
use mermaid_rs_renderer::{render_with_options, RenderOptions, Theme};
use writ::image_cache::{ImageCache, ImageState};
use writ::mermaid::{key_for, render_mermaid_blocking};

/// The diagram as SVG.
fn render(source: &String) -> Option<String> {
    let opts = RenderOptions {
        theme: Theme::dark(),
        ..Default::default()
    };
    render_with_options(source, opts).ok()
}

#[test]
fn renders_diagram_into_cache() {
    let src = "flowchart TD\n  A[Start] --> B[End]";
    let key = key_for(src);
    let mut cache = ImageCache::new();
    render_mermaid_blocking(&[(key.clone(), src.to_string())], &mut cache, render);
    assert!(
        matches!(cache.get(&key), Some(ImageState::Loaded(_))),
        "a valid flowchart should render to SVG and decode"
    );
}

#[test]
fn bad_source_fails_without_panicking() {
    let src = "%%%% definitely not mermaid %%%%";
    let key = key_for(src);
    let mut cache = ImageCache::new();
    render_mermaid_blocking(&[(key.clone(), src.to_string())], &mut cache, render);
    // Must not panic; the entry resolves to some state (Failed, or an error diagram).
    assert!(cache.get(&key).is_some());
}

#[test]
fn key_is_stable_per_source() {
    assert_eq!(key_for("graph LR; A-->B"), key_for("graph LR; A-->B"));
    assert_ne!(key_for("graph LR; A-->B"), key_for("graph LR; A-->C"));
}
