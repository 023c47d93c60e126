//! Mermaid diagrams: a diagram is cached under a synthetic `mermaid:<hash>` key so it
//! renders once per distinct source, not per frame.
use crate::image_cache::{first_job, render_missing, rendered_as, ImageCache};
use crate::text::push_char;
use std::collections::hash_map::DefaultHasher;
use std::hash::Hasher;
use std::ops::Range;
use vstd::prelude::*;
use vstd::std_specs::hash::DefaultHasherAdditionalSpecFns;
use vstd::string::*;

verus! {

/// A ```` ```mermaid ```` fence in the document. `block` is the whole fenced range (for
/// the reveal-on-cursor test); `content` is the diagram source; `anchor_line` is the
/// fence's first line, which carries the drawn image (other block lines collapse to 0).
#[derive(Debug, Clone, PartialEq)]
pub struct MermaidBlock {
    pub block: Range<usize>,
    pub content: Range<usize>,
    pub anchor_line: usize,
}

/// A hexadecimal digit.
pub open spec fn hex_char(d: nat) -> char {
    if d < 10 {
        (48 + d) as char
    } else {
        (87 + d) as char
    }
}

/// The last `n` hexadecimal digits of a number.
pub open spec fn hex(x: nat, n: nat) -> Seq<char>
    decreases n,
{
    if n == 0 {
        seq![]
    } else {
        hex(x / 16, (n - 1) as nat).push(hex_char(x % 16))
    }
}

fn hex_digit(d: u64) -> (c: char)
    requires
        d < 16,
    ensures
        c == hex_char(d as nat),
{
    if d < 10 {
        (48 + d as u8) as char
    } else {
        (87 + d as u8) as char
    }
}

/// Appends the last `n` hexadecimal digits of a number.
pub(crate) fn push_hex(s: &mut String, x: u64, n: usize)
    ensures
        final(s)@ == old(s)@ + hex(x as nat, n as nat),
    decreases n,
{
    if n > 0 {
        push_hex(s, x / 16, n - 1);
        push_char(s, hex_digit(x % 16));
    }
    assert(s@ =~= old(s)@ + hex(x as nat, n as nat));
}

/// The key of a source: its hash in hexadecimal.
pub open spec fn mermaid_key(source: Seq<u8>) -> Seq<char> {
    "mermaid:"@ + hex(DefaultHasher::spec_finish(seq![source, seq![0xffu8]]) as nat, 16)
}

/// Synthetic cache key for a diagram, derived from its source only — the same source
/// reuses one decode across widths.
pub fn key_for(source: &str) -> (r: String)
    ensures
        r@ == mermaid_key(source.spec_bytes()),
{
    let mut h = DefaultHasher::new();
    h.write(source.as_bytes());
    let end: [u8; 1] = [0xff];
    h.write(&end);
    proof {
        assert(h@ =~= seq![source.spec_bytes(), end@]);
        assert(end@ =~= seq![0xffu8]);
    }
    let mut key = "mermaid:".to_owned();
    push_hex(&mut key, h.finish(), 16);
    key
}

/// Synchronously render diagrams into the cache: every `(key, source)` with no cache
/// entry is rendered, and fails where there is no image of it.
pub fn render_mermaid_blocking<I, F: Fn(&String) -> Option<I>>(
    sources: &[(String, String)],
    cache: &mut ImageCache<I>,
    render: F,
)
    requires
        forall|source: &String| call_requires(render, (source,)),
    ensures
        forall|k: Seq<char>| #[trigger]
            final(cache)@.dom().contains(k) == (old(cache)@.dom().contains(k) || first_job(
                sources@,
                k,
                0,
            ) is Some),
        forall|k: Seq<char>| #[trigger]
            old(cache)@.dom().contains(k) ==> final(cache)@[k] == old(cache)@[k],
        forall|k: Seq<char>|
            !old(cache)@.dom().contains(k) && #[trigger] first_job(sources@, k, 0) is Some
                ==> rendered_as(render, first_job(sources@, k, 0)->0, final(cache)@[k]),
{
    render_missing(sources, cache, render);
}

/// A digit below ten is a figure, and any other the letter that is as far from `a`.
pub proof fn law_hex_digits(d: nat, x: nat, n: nat)
    requires
        d < 16,
    ensures
        d < 10 ==> hex_char(d) as u32 == '0' as u32 + d,
        d >= 10 ==> hex_char(d) as u32 == 'a' as u32 + (d - 10),
        hex(x * 16 + d, n + 1) == hex(x, n).push(hex_char(d)),
        hex(x, 0).len() == 0,
{
    assert((x * 16 + d) / 16 == x && (x * 16 + d) % 16 == d) by (nonlinear_arith)
        requires
            d < 16,
    ;
}

/// The key of a diagram is its scheme and sixteen digits.
pub proof fn law_mermaid_keys(source: Seq<u8>)
    ensures
        mermaid_key(source).len() == 24,
        mermaid_key(source).subrange(0, 8) == seq!['m', 'e', 'r', 'm', 'a', 'i', 'd', ':'],
{
    reveal_strlit("mermaid:");
    lemma_hex_len(DefaultHasher::spec_finish(seq![source, seq![0xffu8]]) as nat, 16);
    assert(mermaid_key(source).subrange(0, 8) =~= "mermaid:"@);
    assert("mermaid:"@ =~= seq!['m', 'e', 'r', 'm', 'a', 'i', 'd', ':']);
}

/// As many digits come out as are asked for.
pub proof fn lemma_hex_len(x: nat, n: nat)
    ensures
        hex(x, n).len() == n,
    decreases n,
{
    if n > 0 {
        lemma_hex_len(x / 16, (n - 1) as nat);
    }
}

} // verus!
