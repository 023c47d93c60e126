//! The state of a headless, render-only markdown view: the text it shows, its images and the
//! layout that was built of them.
//!
//! Feed content in one of two ways: [`MarkdownView::set_markdown`] replaces the whole
//! document, and [`MarkdownView::push_str`] appends at the end — the streaming entry
//! point for incrementally growing output.
use crate::image_cache::{ImageCache, ImageState};
use vstd::prelude::*;
use vstd::string::*;

verus! {

/// A headless markdown view with images `I` and layouts `L`. A layout stands only as long as
/// nothing changed that it was built of.
#[verifier::reject_recursive_types(I)]
#[verifier::reject_recursive_types(L)]
pub struct MarkdownView<I, L> {
    text: String,
    images: ImageCache<I>,
    layout: Option<L>,
    /// The scroll offset: the bit pattern of a floating-point number.
    scroll: u32,
}

/// What a [`MarkdownView`] holds.
#[verifier::ext_equal]
pub struct MarkdownState<I, L> {
    pub text: Seq<char>,
    pub images: Map<Seq<char>, ImageState<I>>,
    pub layout: Option<L>,
    pub scroll: u32,
}

/// A view with nothing in it.
pub open spec fn empty_view<I, L>() -> MarkdownState<I, L> {
    MarkdownState {
        text: seq![],
        images: Map::empty(),
        layout: None,
        scroll: 0,
    }
}

impl<I, L> MarkdownState<I, L> {
    /// Another document: the layout and the scroll position are discarded.
    pub open spec fn replaced(self, text: Seq<char>) -> Self {
        MarkdownState { text, layout: None, scroll: 0, ..self }
    }

    /// More text at the end: the layout is discarded, the scroll position is kept.
    pub open spec fn pushed(self, text: Seq<char>) -> Self {
        MarkdownState { text: self.text + text, layout: None, ..self }
    }
}

impl<I, L> View for MarkdownView<I, L> {
    type V = MarkdownState<I, L>;

    closed spec fn view(&self) -> MarkdownState<I, L> {
        MarkdownState {
            text: self.text@,
            images: self.images@,
            layout: self.layout,
            scroll: self.scroll,
        }
    }
}

impl<I, L> MarkdownView<I, L> {
    /// An empty view.
    pub fn new() -> (r: Self)
        ensures
            r@ == empty_view::<I, L>(),
    {
        proof {
            reveal_strlit("");
            assert(""@ =~= Seq::<char>::empty());
        }
        MarkdownView { text: "".to_owned(), images: ImageCache::new(), layout: None, scroll: 0 }
    }

    /// Replace the entire document with `text`, discarding any prior content, layout, and
    /// scroll position.
    pub fn set_markdown(&mut self, text: &str)
        ensures
            final(self)@ == old(self)@.replaced(text@),
    {
        self.text = text.to_owned();
        self.layout = None;
        self.scroll = 0;
    }

    /// Append `text` to the end of the document (the streaming entry point). Invalidates the
    /// built layout; scroll is preserved.
    pub fn push_str(&mut self, text: &str)
        ensures
            final(self)@ == old(self)@.pushed(text@),
    {
        self.text.append(text);
        self.layout = None;
    }

    /// The document.
    pub fn text(&self) -> (r: &str)
        ensures
            r@ == self@.text,
    {
        self.text.as_str()
    }

    /// Hand what the image bytes for `url` decode to, `None` where they do not. An image is
    /// cached, the built layout is invalidated (scroll is preserved), and this
    /// returns `true`; on failure the URL is marked failed and this returns `false`.
    pub fn set_image_bytes(&mut self, url: &str, image: Option<I>) -> (r: bool)
        ensures
            match image {
                Some(i) => r && final(self)@ == (MarkdownState {
                    images: old(self)@.images.insert(url@, ImageState::Loaded(i)),
                    layout: None,
                    ..old(self)@
                }),
                None => !r && final(self)@ == (MarkdownState {
                    images: old(self)@.images.insert(url@, ImageState::Failed),
                    ..old(self)@
                }),
            },
    {
        match image {
            Some(i) => {
                self.images.set_loaded(url, i);
                self.layout = None;
                true
            },
            None => {
                self.images.set_failed(url);
                false
            },
        }
    }

    /// Mark `url` as failed (the consumer's fetch errored), invalidating the built layout so
    /// that the next one reflows around the placeholder. Scroll is preserved.
    pub fn set_image_failed(&mut self, url: &str)
        ensures
            final(self)@ == (MarkdownState {
                images: old(self)@.images.insert(url@, ImageState::Failed),
                layout: None,
                ..old(self)@
            }),
    {
        self.images.set_failed(url);
        self.layout = None;
    }

    /// What is known of an image.
    pub fn image(&self, url: &str) -> (r: Option<&ImageState<I>>)
        ensures
            match r {
                Some(s) => self@.images.dom().contains(url@) && *s == self@.images[url@],
                None => !self@.images.dom().contains(url@),
            },
    {
        self.images.get(url)
    }

    /// A layout was built.
    pub fn set_layout(&mut self, layout: L)
        ensures
            final(self)@ == (MarkdownState { layout: Some(layout), ..old(self)@ }),
    {
        self.layout = Some(layout);
    }

    /// The built layout, if it still stands.
    pub fn layout(&self) -> (r: Option<&L>)
        ensures
            match r {
                Some(l) => self@.layout == Some(*l),
                None => self@.layout is None,
            },
    {
        match &self.layout {
            Some(l) => Some(l),
            None => None,
        }
    }

    /// Set the scroll offset.
    pub fn set_scroll(&mut self, scroll: u32)
        ensures
            final(self)@ == (MarkdownState { scroll, ..old(self)@ }),
    {
        self.scroll = scroll;
    }

    /// The scroll offset.
    pub fn scroll(&self) -> (r: u32)
        ensures
            r == self@.scroll,
    {
        self.scroll
    }
}

/// Streaming a text in pieces shows what streaming it at once does, and a replaced document
/// keeps nothing of the one before.
pub proof fn law_streaming_in_pieces<I, L>(v: MarkdownState<I, L>, a: Seq<char>, b: Seq<char>)
    ensures
        v.pushed(a).pushed(b) == v.pushed(a + b),
        v.replaced(a).pushed(b) == v.replaced(a + b),
        v.pushed(a).replaced(b) == v.replaced(b),
{
    assert(v.pushed(a).pushed(b) =~= v.pushed(a + b));
    assert(v.replaced(a).pushed(b) =~= v.replaced(a + b));
}

/// A new document starts at the top with no layout; more text leaves the scroll position
/// and drops the layout; neither touches the images.
pub proof fn law_what_a_change_keeps<I, L>(v: MarkdownState<I, L>, a: Seq<char>)
    ensures
        v.replaced(a).text == a && v.replaced(a).scroll == 0 && v.replaced(a).layout is None
            && v.replaced(a).images == v.images,
        v.pushed(a).text == v.text + a && v.pushed(a).scroll == v.scroll && v.pushed(
            a,
        ).layout is None && v.pushed(a).images == v.images,
        empty_view::<I, L>().text.len() == 0 && empty_view::<I, L>().layout is None
            && empty_view::<I, L>().scroll == 0,
{
}

} // verus!
