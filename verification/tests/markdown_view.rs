//! The images of a markdown view.
use image::{DynamicImage, ImageFormat, RgbaImage};
use std::io::Cursor;
use writ::image_cache::ImageState;
use writ::markdown_view::MarkdownView;

type PageView = MarkdownView<DynamicImage, usize>;

fn decode(bytes: &[u8]) -> Option<DynamicImage> {
    image::load_from_memory(bytes).ok()
}

/// Counts the lines.
fn lay_out(view: &mut PageView) {
    let lines = view.text().lines().count();
    view.set_layout(lines);
}

#[test]
fn set_image_bytes_rejects_garbage() {
    let mut view = PageView::new();
    assert!(!view.set_image_bytes("x.png", decode(b"not an image")));
    assert!(matches!(view.image("x.png"), Some(ImageState::Failed)));
}

#[test]
fn set_image_bytes_accepts_valid_png() {
    let mut png = Vec::new();
    RgbaImage::from_pixel(1, 1, image::Rgba([1, 2, 3, 255]))
        .write_to(&mut Cursor::new(&mut png), ImageFormat::Png)
        .unwrap();

    let mut view = PageView::new();
    view.set_markdown("![alt](pic.png)\n");
    lay_out(&mut view);
    assert!(view.set_image_bytes("pic.png", decode(&png)));
    // The layout was invalidated, and a new one stands.
    assert!(view.layout().is_none());
    lay_out(&mut view);
    assert_eq!(view.layout(), Some(&1));
}
