//! LaTeX math: rendered images are cached under a key over the source, its style, its
//! size and its color.
use crate::image_cache::{first_job, render_missing, rendered_as, ImageCache};
use crate::mermaid::{hex, push_hex};
use std::collections::hash_map::DefaultHasher;
use std::hash::Hasher;
use std::ops::Range;
use vstd::bytes::{spec_u32_to_le_bytes, u32_to_le_bytes};
use vstd::prelude::*;
use vstd::std_specs::hash::DefaultHasherAdditionalSpecFns;
use vstd::string::*;
use vstd::utf8::encode_utf8;

verus! {

/// A `$$…$$` display-math block. `block` is the whole delimited span (for the reveal
/// test); `content` is the LaTeX source; `anchor_line` is the first line, which carries
/// the rendered image (other block lines collapse to zero height).
#[derive(Debug, Clone, PartialEq)]
pub struct MathBlock {
    pub block: Range<usize>,
    pub content: Range<usize>,
    pub anchor_line: usize,
}

/// A color: the bit patterns of its red, green and blue parts.
#[derive(Debug, Clone, Copy, PartialEq)]
pub struct Rgb {
    pub r: u32,
    pub g: u32,
    pub b: u32,
}

/// A request to render one math span. Sizes and colors are the bit patterns of
/// floating-point numbers.
#[derive(Debug, Clone, PartialEq)]
pub struct MathJob {
    pub latex: String,
    /// `$$` display style (large, centered) vs `$` inline text style.
    pub display: bool,
    /// Body/heading font size the math should match, in logical px.
    pub font_px: u32,
    /// Device pixel ratio (render at this × for hidpi crispness).
    pub scale: u32,
    /// Glyph color (theme foreground).
    pub fg: Rgb,
}

/// What is hashed of a job.
pub open spec fn math_parts(latex: Seq<u8>, job: MathJob) -> Seq<Seq<u8>> {
    seq![
        latex,
        seq![0xffu8],
        seq![
            if job.display {
                1u8
            } else {
                0u8
            },
        ],
        spec_u32_to_le_bytes(job.font_px),
        spec_u32_to_le_bytes(job.scale),
        spec_u32_to_le_bytes(job.fg.r),
        spec_u32_to_le_bytes(job.fg.g),
        spec_u32_to_le_bytes(job.fg.b),
    ]
}

/// The key of a job: its hash in hexadecimal.
pub open spec fn math_key(job: MathJob) -> Seq<char> {
    "math:"@ + hex(
        DefaultHasher::spec_finish(math_parts(encode_utf8(job.latex@), job)) as nat,
        16,
    )
}

/// Cache key for a math render. Includes display/size/color so inline vs block and a theme
/// switch don't collide on one entry.
pub fn key_for(job: &MathJob) -> (r: String)
    ensures
        r@ == math_key(*job),
{
    let mut h = DefaultHasher::new();
    h.write(job.latex.as_str().as_bytes());
    let end: [u8; 1] = [0xff];
    h.write(&end);
    let style: [u8; 1] = [
        if job.display {
            1u8
        } else {
            0u8
        },
    ];
    h.write(&style);
    let font = u32_to_le_bytes(job.font_px);
    h.write(font.as_slice());
    let scale = u32_to_le_bytes(job.scale);
    h.write(scale.as_slice());
    let red = u32_to_le_bytes(job.fg.r);
    h.write(red.as_slice());
    let green = u32_to_le_bytes(job.fg.g);
    h.write(green.as_slice());
    let blue = u32_to_le_bytes(job.fg.b);
    h.write(blue.as_slice());
    proof {
        assert(end@ =~= seq![0xffu8]);
        assert(style@ =~= math_parts(encode_utf8(job.latex@), *job)[2]);
        assert(h@ =~= math_parts(encode_utf8(job.latex@), *job));
    }
    let mut key = "math:".to_owned();
    push_hex(&mut key, h.finish(), 16);
    key
}

/// Synchronously render math into the cache: every `(key, job)` with no cache entry is
/// rendered, and fails where there is no image of it.
pub fn render_math_blocking<I, F: Fn(&MathJob) -> Option<I>>(
    jobs: &[(String, MathJob)],
    cache: &mut ImageCache<I>,
    render: F,
)
    requires
        forall|job: &MathJob| call_requires(render, (job,)),
    ensures
        forall|k: Seq<char>| #[trigger]
            final(cache)@.dom().contains(k) == (old(cache)@.dom().contains(k) || first_job(
                jobs@,
                k,
                0,
            ) is Some),
        forall|k: Seq<char>| #[trigger]
            old(cache)@.dom().contains(k) ==> final(cache)@[k] == old(cache)@[k],
        forall|k: Seq<char>|
            !old(cache)@.dom().contains(k) && #[trigger] first_job(jobs@, k, 0) is Some
                ==> rendered_as(render, first_job(jobs@, k, 0)->0, final(cache)@[k]),
{
    render_missing(jobs, cache, render);
}

/// Nothing that a render depends on is left out of what is hashed: jobs of which the same is
/// hashed are for the same source, style, size, scale and color.
pub proof fn law_everything_is_hashed(a: MathJob, b: MathJob)
    requires
        math_parts(encode_utf8(a.latex@), a) == math_parts(encode_utf8(b.latex@), b),
    ensures
        a.latex@ == b.latex@,
        a.display == b.display,
        a.font_px == b.font_px,
        a.scale == b.scale,
        a.fg == b.fg,
{
    let p = math_parts(encode_utf8(a.latex@), a);
    let q = math_parts(encode_utf8(b.latex@), b);
    assert(p[0] == q[0]);
    crate::text::lemma_encode_injective(a.latex@, b.latex@);
    assert(p[2][0] == q[2][0]);
    vstd::bytes::lemma_auto_spec_u32_to_from_le_bytes();
    assert(p[3] == q[3] && p[4] == q[4] && p[5] == q[5] && p[6] == q[6] && p[7] == q[7]);
    assert(p[3] == spec_u32_to_le_bytes(a.font_px) && spec_u32_to_le_bytes(a.font_px).len() == 4);
    assert(p[4] == spec_u32_to_le_bytes(a.scale) && spec_u32_to_le_bytes(a.scale).len() == 4);
    assert(p[5] == spec_u32_to_le_bytes(a.fg.r) && spec_u32_to_le_bytes(a.fg.r).len() == 4);
    assert(p[6] == spec_u32_to_le_bytes(a.fg.g) && spec_u32_to_le_bytes(a.fg.g).len() == 4);
    assert(p[7] == spec_u32_to_le_bytes(a.fg.b) && spec_u32_to_le_bytes(a.fg.b).len() == 4);
    assert(q[3] == spec_u32_to_le_bytes(b.font_px) && spec_u32_to_le_bytes(b.font_px).len() == 4);
    assert(q[4] == spec_u32_to_le_bytes(b.scale) && spec_u32_to_le_bytes(b.scale).len() == 4);
    assert(q[5] == spec_u32_to_le_bytes(b.fg.r) && spec_u32_to_le_bytes(b.fg.r).len() == 4);
    assert(q[6] == spec_u32_to_le_bytes(b.fg.g) && spec_u32_to_le_bytes(b.fg.g).len() == 4);
    assert(q[7] == spec_u32_to_le_bytes(b.fg.b) && spec_u32_to_le_bytes(b.fg.b).len() == 4);
}

/// The key of a job is its scheme and sixteen digits.
pub proof fn law_math_keys(job: MathJob)
    ensures
        math_key(job).len() == 21,
        math_key(job).subrange(0, 5) == seq!['m', 'a', 't', 'h', ':'],
{
    reveal_strlit("math:");
    crate::mermaid::lemma_hex_len(
        DefaultHasher::spec_finish(math_parts(encode_utf8(job.latex@), job)) as nat,
        16,
    );
    assert(math_key(job).subrange(0, 5) =~= "math:"@);
    assert("math:"@ =~= seq!['m', 'a', 't', 'h', ':']);
}

} // verus!
