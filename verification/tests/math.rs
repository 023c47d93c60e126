//! Math in the image cache.
use ratex_layout::{layout, to_display_list, LayoutOptions};
use ratex_parser::parser::parse;
use ratex_render::{render_to_png, RenderOptions};
use ratex_types::math_style::MathStyle;
use writ::image_cache::{ImageCache, ImageState};
use writ::math::{key_for, render_math_blocking, MathJob, Rgb};

fn job(latex: &str, display: bool) -> MathJob {
    let fg = 0.9f32.to_bits();
    MathJob {
        latex: latex.to_string(),
        display,
        font_px: 16.0f32.to_bits(),
        scale: 2.0f32.to_bits(),
        fg: Rgb { r: fg, g: fg, b: fg },
    }
}

/// The math as a PNG.
fn render(job: &MathJob) -> Option<Vec<u8>> {
    let nodes = parse(&job.latex).ok()?;
    let style = if job.display { MathStyle::Display } else { MathStyle::Text };
    let list = to_display_list(&layout(&nodes, &LayoutOptions { style, ..Default::default() }));
    let opts = RenderOptions {
        font_size: f32::from_bits(job.font_px),
        device_pixel_ratio: f32::from_bits(job.scale),
        ..Default::default()
    };
    render_to_png(&list, &opts).ok()
}

#[test]
fn renders_math_into_cache() {
    let j = job("x^2 + \\frac{1}{2}", true);
    let key = key_for(&j);
    let mut cache = ImageCache::new();
    render_math_blocking(&[(key.clone(), j)], &mut cache, render);
    assert!(
        matches!(cache.get(&key), Some(ImageState::Loaded(_))),
        "valid LaTeX should render + decode"
    );
}

#[test]
fn bad_latex_fails_without_panicking() {
    let j = job("\\frac{ oops unbalanced", false);
    let key = key_for(&j);
    let mut cache = ImageCache::new();
    render_math_blocking(&[(key.clone(), j)], &mut cache, render);
    assert!(cache.get(&key).is_some());
}

#[test]
fn key_stable_and_distinguishes_display() {
    assert_eq!(key_for(&job("x", true)), key_for(&job("x", true)));
    assert_ne!(key_for(&job("x", true)), key_for(&job("x", false)));
    assert_ne!(key_for(&job("x", true)), key_for(&job("y", true)));
}
