//! Context-aware paste handling for markdown.
//!
//! This module handles pasted content with minimal transformation:
//! - Normalizes line endings (CRLF → LF)
//! - Normalizes curly quotes to straight quotes
//! - Preserves content literally in code blocks
//! - Adds blockquote prefixes to continuation lines when in a blockquote
use crate::marker::{CodeBlockInfo, LineMarkers, MarkerKind, MarkerKindView, MarkerView};
use crate::text::{chars_vec, push_char, string_of, trim_end, trim_right};
use vstd::prelude::*;
use vstd::string::*;

verus! {

/// Context about the cursor position for paste operations.
#[derive(Debug, Clone)]
pub struct PasteContext {
    /// Whether the cursor is inside a code block.
    pub in_code_block: bool,
    /// The blockquote prefix to apply to continuation lines (e.g., "> " or "> > ").
    pub blockquote_prefix: String,
}

/// The cursor is in a code block: in the first one that holds it, behind the opening
/// fence, or anywhere in it where it has no content.
pub open spec fn in_code(blocks: Seq<CodeBlockInfo>, cursor: int, i: int) -> bool
    decreases blocks.len() - i,
{
    if i < 0 || i >= blocks.len() {
        false
    } else {
        let b = blocks[i];
        if b.block_range.start <= cursor < b.block_range.end {
            cursor >= b.content_range.start || b.content_range.start >= b.content_range.end
        } else {
            in_code(blocks, cursor, i + 1)
        }
    }
}

/// How many markers are quote markers.
pub open spec fn quote_depth(ms: Seq<MarkerView>) -> nat
    decreases ms.len(),
{
    if ms.len() == 0 {
        0
    } else {
        quote_depth(ms.drop_last()) + (if ms.last().kind is BlockQuote {
            1nat
        } else {
            0
        })
    }
}

/// The quote marker `n` times.
pub open spec fn quote_prefix(n: nat) -> Seq<char>
    decreases n,
{
    if n == 0 {
        seq![]
    } else {
        quote_prefix((n - 1) as nat) + "> "@
    }
}

impl PasteContext {
    /// Determine the paste context at the cursor position, from the code blocks of the
    /// document and the cursor's line.
    pub fn from_buffer(
        code_blocks: &[CodeBlockInfo],
        current_line: &LineMarkers,
        cursor_offset: usize,
    ) -> (r: Self)
        ensures
            r.in_code_block == in_code(code_blocks@, cursor_offset as int, 0),
            r.blockquote_prefix@ == quote_prefix(quote_depth(current_line@.markers)),
    {
        let mut in_code_block = false;
        let mut i: usize = 0;
        let n = code_blocks.len();
        while i < n && !(cursor_offset >= code_blocks[i].block_range.start && cursor_offset
            < code_blocks[i].block_range.end)
            invariant
                n == code_blocks@.len(),
                i <= n,
                in_code(code_blocks@, cursor_offset as int, 0) == in_code(
                    code_blocks@,
                    cursor_offset as int,
                    i as int,
                ),
            decreases n - i,
        {
            i += 1;
        }
        if i < n {
            let content = &code_blocks[i].content_range;
            in_code_block = cursor_offset >= content.start || content.start >= content.end;
        }
        let ghost ms = current_line@.markers;
        let mut prefix = String::new();
        let mut k: usize = 0;
        assert(ms.subrange(0, 0) =~= Seq::<MarkerView>::empty());
        assert(prefix@ =~= quote_prefix(0));
        while k < current_line.markers.len()
            invariant
                ms == current_line@.markers,
                k <= current_line.markers@.len(),
                prefix@ == quote_prefix(quote_depth(ms.subrange(0, k as int))),
            decreases current_line.markers@.len() - k,
        {
            let m = &current_line.markers[k];
            proof {
                let upto = ms.subrange(0, k + 1);
                assert(upto.drop_last() =~= ms.subrange(0, k as int));
                assert(upto.last() == m@);
            }
            if matches!(m.kind, MarkerKind::BlockQuote) {
                prefix.append("> ");
            }
            k += 1;
        }
        assert(ms.subrange(0, k as int) =~= ms);
        PasteContext { in_code_block, blockquote_prefix: prefix }
    }
}

/// A character as it is pasted.
pub open spec fn pasted_char(c: char) -> char {
    if c == '\r' {
        '\n'
    } else if c == '\u{201C}' || c == '\u{201D}' {
        '"'
    } else if c == '\u{2018}' || c == '\u{2019}' {
        '\''
    } else {
        c
    }
}

/// Text from `i` on with its line endings as `\n` and its quotes straight.
pub open spec fn normalized(s: Seq<char>, i: int) -> Seq<char>
    decreases s.len() - i,
{
    if i < 0 || i >= s.len() {
        seq![]
    } else if s[i] == '\r' && i + 1 < s.len() && s[i + 1] == '\n' {
        seq!['\n'] + normalized(s, i + 2)
    } else {
        seq![pasted_char(s[i])] + normalized(s, i + 1)
    }
}

/// Normalize line endings and curly quotes.
pub fn normalize(text: &str) -> (r: String)
    ensures
        r@ == normalized(text@, 0),
{
    let v = chars_vec(text);
    let n = v.len();
    let mut out = String::new();
    let mut i: usize = 0;
    assert(out@ + normalized(v@, 0) =~= normalized(v@, 0));
    while i < n
        invariant
            n == v@.len(),
            i <= n,
            out@ + normalized(v@, i as int) == normalized(v@, 0),
        decreases n - i,
    {
        let ghost before = out@;
        let c = v[i];
        if c == '\r' && i + 1 < n && v[i + 1] == '\n' {
            push_char(&mut out, '\n');
            assert(out@ + normalized(v@, i + 2) =~= before + normalized(v@, i as int));
            i += 2;
        } else {
            let p = if c == '\r' {
                '\n'
            } else if c == '\u{201C}' || c == '\u{201D}' {
                '"'
            } else if c == '\u{2018}' || c == '\u{2019}' {
                '\''
            } else {
                c
            };
            push_char(&mut out, p);
            assert(out@ + normalized(v@, i + 1) =~= before + normalized(v@, i as int));
            i += 1;
        }
    }
    assert(out@ + Seq::<char>::empty() =~= out@);
    out
}

/// Where the line from `i` on ends.
pub open spec fn line_end(s: Seq<char>, i: int) -> int
    decreases s.len() - i,
{
    if i < 0 || i >= s.len() || s[i] == '\n' {
        i
    } else {
        line_end(s, i + 1)
    }
}

/// The lines of a text from `i` on. What follows the last line break is no line where it
/// is empty.
pub open spec fn lines_from(s: Seq<char>, i: int) -> Seq<Seq<char>>
    decreases s.len() + 1 - i,
{
    if i < 0 || i >= s.len() || !(i <= line_end(s, i) <= s.len()) {
        seq![]
    } else {
        seq![s.subrange(i, line_end(s, i))] + lines_from(s, line_end(s, i) + 1)
    }
}

/// The first `k` lines, each but the first behind the prefix; an empty one behind the
/// prefix without its trailing space.
pub open spec fn quoted(lines: Seq<Seq<char>>, prefix: Seq<char>, k: int) -> Seq<char>
    decreases k,
{
    if k <= 0 {
        seq![]
    } else if k == 1 {
        lines[0]
    } else {
        quoted(lines, prefix, k - 1) + seq!['\n'] + (if lines[k - 1].len() == 0 {
            trim_right(prefix)
        } else {
            prefix + lines[k - 1]
        })
    }
}

/// Pasted text as it is inserted.
pub open spec fn transformed(text: Seq<char>, in_code_block: bool, prefix: Seq<char>) -> Seq<char> {
    let t = normalized(text, 0);
    let lines = lines_from(t, 0);
    if in_code_block || prefix.len() == 0 {
        t
    } else {
        quoted(lines, prefix, lines.len() as int)
    }
}

proof fn lemma_line_end(s: Seq<char>, i: int)
    requires
        0 <= i <= s.len(),
    ensures
        i <= line_end(s, i) <= s.len(),
    decreases s.len() - i,
{
    if i < s.len() && s[i] != '\n' {
        lemma_line_end(s, i + 1);
    }
}

fn find_line_end(v: &Vec<char>, i: usize) -> (r: usize)
    requires
        i <= v@.len(),
    ensures
        r == line_end(v@, i as int),
        i <= r <= v@.len(),
{
    let n = v.len();
    let mut k: usize = i;
    while k < n && v[k] != '\n'
        invariant
            n == v@.len(),
            i <= k <= n,
            line_end(v@, i as int) == line_end(v@, k as int),
        decreases n - k,
    {
        k += 1;
    }
    k
}

/// Transform pasted content based on context.
pub fn transform_paste(text: &str, ctx: &PasteContext) -> (r: String)
    ensures
        r@ == transformed(text@, ctx.in_code_block, ctx.blockquote_prefix@),
{
    let normal = normalize(text);
    if ctx.in_code_block || ctx.blockquote_prefix.as_str().is_empty() {
        return normal;
    }
    let ghost t = normal@;
    let ghost lines = lines_from(t, 0);
    let ghost prefix = ctx.blockquote_prefix@;
    let bare = trim_end(ctx.blockquote_prefix.as_str());
    let v = chars_vec(normal.as_str());
    let n = v.len();
    let mut out = String::new();
    let mut i: usize = 0;
    let mut k: usize = 0;
    assert(lines.subrange(0, 0) + lines_from(t, 0) =~= lines);
    assert(out@ =~= quoted(lines, prefix, 0));
    while i < n
        invariant
            n == v@.len(),
            v@ == t,
            lines == lines_from(t, 0),
            prefix == ctx.blockquote_prefix@,
            bare@ == trim_right(prefix),
            i <= n + 1,
            k <= i,
            k <= lines.len(),
            lines == lines.subrange(0, k as int) + lines_from(t, i as int),
            out@ == quoted(lines, prefix, k as int),
            i > n ==> n < usize::MAX,
        decreases n + 1 - i,
    {
        let e = find_line_end(&v, i);
        let line = string_of(&v, i, e);
        proof {
            lemma_line_end(t, i as int);
            let rest = lines_from(t, i as int);
            assert(rest == seq![line@] + lines_from(t, e + 1));
            assert(lines[k as int] == line@);
            assert(lines.subrange(0, k + 1) =~= lines.subrange(0, k as int).push(line@));
            assert(lines =~= lines.subrange(0, k + 1) + lines_from(t, e + 1));
        }
        if k > 0 {
            push_char(&mut out, '\n');
            if line.as_str().is_empty() {
                out.append(bare.as_str());
            } else {
                out.append(ctx.blockquote_prefix.as_str());
            }
        }
        let ghost before = out@;
        out.append(line.as_str());
        assert(out@ =~= quoted(lines, prefix, k + 1));
        k += 1;
        if e == n {
            assert(lines_from(t, e + 1) =~= Seq::<Seq<char>>::empty());
            assert(lines.subrange(0, k as int) =~= lines);
            assert(lines_from(t, n as int) =~= Seq::<Seq<char>>::empty());
            i = n;
        } else {
            i = e + 1;
        }
    }
    assert(lines_from(t, i as int) =~= Seq::<Seq<char>>::empty());
    assert(lines.len() == k);
    out
}

// ---------------------------------------------------------------------------
// Laws
// ---------------------------------------------------------------------------

/// The character is one that pasting keeps.
pub open spec fn is_kept(c: char) -> bool {
    pasted_char(c) == c
}

/// Normalized text holds no carriage returns and no curly quotes.
pub proof fn law_normalized_is_plain(s: Seq<char>, i: int)
    ensures
        forall|k: int| 0 <= k < normalized(s, i).len() ==> is_kept(#[trigger] normalized(s, i)[k]),
    decreases s.len() - i,
{
    if 0 <= i < s.len() {
        let next = if s[i] == '\r' && i + 1 < s.len() && s[i + 1] == '\n' {
            i + 2
        } else {
            i + 1
        };
        law_normalized_is_plain(s, next);
        assert forall|k: int| 0 <= k < normalized(s, i).len() implies is_kept(
            #[trigger] normalized(s, i)[k],
        ) by {
            if k > 0 {
                assert(normalized(s, i)[k] == normalized(s, next)[k - 1]);
            }
        }
    }
}

proof fn lemma_plain_stays(s: Seq<char>, i: int)
    requires
        0 <= i <= s.len(),
        forall|k: int| 0 <= k < s.len() ==> is_kept(#[trigger] s[k]),
    ensures
        normalized(s, i) == s.subrange(i, s.len() as int),
    decreases s.len() - i,
{
    if i < s.len() {
        assert(is_kept(s[i]));
        lemma_plain_stays(s, i + 1);
        assert(normalized(s, i) =~= s.subrange(i, s.len() as int));
    } else {
        assert(normalized(s, i) =~= s.subrange(i, s.len() as int));
    }
}

/// Normalizing twice is normalizing once.
pub proof fn law_normalizing_again_changes_nothing(s: Seq<char>)
    ensures
        normalized(normalized(s, 0), 0) == normalized(s, 0),
{
    let t = normalized(s, 0);
    law_normalized_is_plain(s, 0);
    lemma_plain_stays(t, 0);
    assert(t.subrange(0, t.len() as int) =~= t);
}

/// In a code block, text is pasted as it is, whatever quotes the line is in.
pub proof fn law_code_is_pasted_literally(text: Seq<char>, prefix: Seq<char>)
    requires
        forall|k: int| 0 <= k < text.len() ==> is_kept(#[trigger] text[k]),
    ensures
        transformed(text, true, prefix) == text,
{
    lemma_plain_stays(text, 0);
    assert(text.subrange(0, text.len() as int) =~= text);
}

proof fn lemma_depth_is_length(ms: Seq<MarkerView>)
    ensures
        quote_depth(ms) == ms.filter(|m: MarkerView| m.kind == MarkerKindView::BlockQuote).len(),
    decreases ms.len(),
{
    let p = |m: MarkerView| m.kind == MarkerKindView::BlockQuote;
    reveal(Seq::filter);
    if ms.len() > 0 {
        lemma_depth_is_length(ms.drop_last());
    }
}

proof fn lemma_prefix_chars(n: nat)
    ensures
        quote_prefix(n).len() == 2 * n,
        forall|i: int| 0 <= i < n ==> #[trigger] quote_prefix(n)[2 * i] == '>',
        forall|i: int| 0 <= i < n ==> #[trigger] quote_prefix(n)[2 * i + 1] == ' ',
    decreases n,
{
    if n > 0 {
        lemma_prefix_chars((n - 1) as nat);
        reveal_strlit("> ");
        let rest = quote_prefix((n - 1) as nat);
        assert forall|i: int| 0 <= i < n implies #[trigger] quote_prefix(n)[2 * i] == '>' by {
            if i < n - 1 {
                assert(quote_prefix(n)[2 * i] == rest[2 * i]);
            }
        }
        assert forall|i: int| 0 <= i < n implies #[trigger] quote_prefix(n)[2 * i + 1] == ' ' by {
            if i < n - 1 {
                assert(quote_prefix(n)[2 * i + 1] == rest[2 * i + 1]);
            }
        }
    }
}

/// The prefix of the lines after the first has a `>` and a space for every quote that the
/// line is in.
pub proof fn law_prefix_counts_the_quotes(ms: Seq<MarkerView>)
    ensures
        ({
            let depth = ms.filter(|m: MarkerView| m.kind == MarkerKindView::BlockQuote).len();
            let prefix = quote_prefix(quote_depth(ms));
            &&& prefix.len() == 2 * depth
            &&& forall|i: int| 0 <= i < depth ==> #[trigger] prefix[2 * i] == '>'
            &&& forall|i: int| 0 <= i < depth ==> #[trigger] prefix[2 * i + 1] == ' '
        }),
{
    lemma_depth_is_length(ms);
    lemma_prefix_chars(quote_depth(ms));
}

/// One quote more makes the prefix longer by one `>` and one space, and no other marker
/// changes it.
pub proof fn law_quotes_add_to_the_prefix(ms: Seq<MarkerView>, m: MarkerView)
    ensures
        m.kind == MarkerKindView::BlockQuote ==> quote_prefix(quote_depth(ms.push(m)))
            == quote_prefix(quote_depth(ms)) + seq!['>', ' '],
        m.kind != MarkerKindView::BlockQuote ==> quote_prefix(quote_depth(ms.push(m)))
            == quote_prefix(quote_depth(ms)),
        quote_prefix(quote_depth(Seq::<MarkerView>::empty())).len() == 0,
{
    reveal_strlit("> ");
    assert("> "@ =~= seq!['>', ' ']);
    assert(ms.push(m).drop_last() =~= ms);
}

/// The cursor is in code where it is in the content of a code block that it is the first to
/// be in, and nowhere outside the code blocks.
pub proof fn law_code_is_where_the_blocks_are(blocks: Seq<CodeBlockInfo>, cursor: int, i: int)
    requires
        0 <= i < blocks.len(),
        blocks[i].block_range.start <= cursor < blocks[i].block_range.end,
        forall|k: int|
            0 <= k < i ==> !((#[trigger] blocks[k]).block_range.start <= cursor
                < blocks[k].block_range.end),
    ensures
        blocks[i].content_range.start < blocks[i].content_range.end ==> in_code(blocks, cursor, 0)
            == (cursor >= blocks[i].content_range.start),
        blocks[i].content_range.start >= blocks[i].content_range.end ==> in_code(
            blocks,
            cursor,
            0,
        ),
{
    lemma_in_code_from(blocks, cursor, 0, i);
}

proof fn lemma_in_code_from(blocks: Seq<CodeBlockInfo>, cursor: int, from: int, i: int)
    requires
        0 <= from <= i <= blocks.len(),
        forall|k: int|
            from <= k < i ==> !((#[trigger] blocks[k]).block_range.start <= cursor
                < blocks[k].block_range.end),
    ensures
        in_code(blocks, cursor, from) == in_code(blocks, cursor, i),
    decreases i - from,
{
    if from < i {
        lemma_in_code_from(blocks, cursor, from + 1, i);
    }
}

/// Outside every code block there is no code.
pub proof fn law_no_code_outside_the_blocks(blocks: Seq<CodeBlockInfo>, cursor: int)
    requires
        forall|k: int|
            0 <= k < blocks.len() ==> !((#[trigger] blocks[k]).block_range.start <= cursor
                < blocks[k].block_range.end),
    ensures
        !in_code(blocks, cursor, 0),
{
    lemma_in_code_from(blocks, cursor, 0, blocks.len() as int);
}

/// Normalizing goes character by character, but takes a carriage return and the line feed
/// behind it together: both line endings become `\n`, and the four curly quotes straight
/// ones. Every other character stays.
pub proof fn law_normalizing_steps(s: Seq<char>)
    requires
        s.len() > 0,
    ensures
        ({
            let r = normalized(s, 0);
            let tail = normalized(s.subrange(1, s.len() as int), 0);
            let c = s[0];
            &&& c == '\r' && s.len() > 1 && s[1] == '\n' ==> r == seq!['\n'] + normalized(
                s.subrange(2, s.len() as int),
                0,
            )
            &&& c == '\r' && !(s.len() > 1 && s[1] == '\n') ==> r == seq!['\n'] + tail
            &&& c == '\u{201C}' || c == '\u{201D}' ==> r == seq!['"'] + tail
            &&& c == '\u{2018}' || c == '\u{2019}' ==> r == seq!['\''] + tail
            &&& c != '\r' && c != '\u{201C}' && c != '\u{201D}' && c != '\u{2018}' && c
                != '\u{2019}' ==> r == seq![c] + tail
        }),
{
    lemma_normalized_shift(s, 1, 1);
    if s.len() > 1 {
        lemma_normalized_shift(s, 2, 2);
    }
}

proof fn lemma_normalized_shift(s: Seq<char>, d: int, i: int)
    requires
        0 <= d <= i <= s.len() + 1,
        d <= s.len(),
    ensures
        normalized(s, i) == normalized(s.subrange(d, s.len() as int), i - d),
    decreases s.len() - i,
{
    let t = s.subrange(d, s.len() as int);
    if i < s.len() {
        assert(t[i - d] == s[i]);
        if s[i] == '\r' && i + 1 < s.len() && s[i + 1] == '\n' {
            assert(t[i + 1 - d] == s[i + 1]);
            lemma_normalized_shift(s, d, i + 2);
        } else {
            if i + 1 < s.len() {
                assert(t[i + 1 - d] == s[i + 1]);
            }
            lemma_normalized_shift(s, d, i + 1);
        }
    }
}

/// Outside quotes, pasted text is only normalized.
pub proof fn law_unquoted_paste_is_normalized(text: Seq<char>, in_code_block: bool)
    ensures
        transformed(text, in_code_block, seq![]) == normalized(text, 0),
{
}

proof fn lemma_line_end_is(s: Seq<char>, i: int, e: int)
    requires
        0 <= i <= e <= s.len(),
        forall|k: int| i <= k < e ==> #[trigger] s[k] != '\n',
        e < s.len() ==> s[e] == '\n',
    ensures
        line_end(s, i) == e,
    decreases e - i,
{
    if i < e {
        assert(s[i] != '\n');
        lemma_line_end_is(s, i + 1, e);
    }
}

proof fn lemma_lines_shift(s: Seq<char>, d: int, i: int)
    requires
        0 <= d <= i <= s.len() + 1,
        d <= s.len(),
    ensures
        lines_from(s, i) == lines_from(s.subrange(d, s.len() as int), i - d),
    decreases s.len() + 1 - i,
{
    let t = s.subrange(d, s.len() as int);
    if i < s.len() {
        lemma_line_end(s, i);
        lemma_line_end_bounds(s, i);
        let e = line_end(s, i);
        assert forall|k: int| i - d <= k < e - d implies #[trigger] t[k] != '\n' by {
            assert(t[k] == s[k + d]);
        }
        if e < s.len() {
            assert(t[e - d] == s[e]);
        }
        lemma_line_end_is(t, i - d, e - d);
        lemma_lines_shift(s, d, e + 1);
        assert(t.subrange(i - d, e - d) =~= s.subrange(i, e));
    }
}

proof fn lemma_line_end_bounds(s: Seq<char>, i: int)
    requires
        0 <= i <= s.len(),
    ensures
        forall|k: int| i <= k < line_end(s, i) ==> #[trigger] s[k] != '\n',
        line_end(s, i) < s.len() ==> s[line_end(s, i)] == '\n',
    decreases s.len() - i,
{
    if i < s.len() && s[i] != '\n' {
        lemma_line_end_bounds(s, i + 1);
    }
}

/// The lines of a text are what is between its line breaks: a line, its break and the lines
/// of the rest.
pub proof fn law_lines_end_at_breaks(head: Seq<char>, rest: Seq<char>)
    requires
        forall|k: int| 0 <= k < head.len() ==> #[trigger] head[k] != '\n',
    ensures
        lines_from(head + seq!['\n'] + rest, 0) == seq![head] + lines_from(rest, 0),
        head.len() > 0 ==> lines_from(head, 0) == seq![head],
        lines_from(Seq::<char>::empty(), 0).len() == 0,
{
    let s = head + seq!['\n'] + rest;
    let n = head.len() as int;
    assert forall|k: int| 0 <= k < n implies #[trigger] s[k] != '\n' by {
        assert(s[k] == head[k]);
    }
    lemma_line_end_is(s, 0, n);
    assert(s.subrange(0, n) =~= head);
    assert(s.subrange(n + 1, s.len() as int) =~= rest);
    lemma_lines_shift(s, n + 1, n + 1);
    if n > 0 {
        lemma_line_end_is(head, 0, n);
        assert(head.subrange(0, n) =~= head);
        assert(lines_from(head, n + 1) =~= Seq::<Seq<char>>::empty());
        assert(lines_from(head, 0) =~= seq![head]);
    }
}

/// In a quote, the first line goes where the cursor is, and every further line follows a
/// line break and the prefix; an empty line follows the prefix without its last space.
pub proof fn law_quoted_lines(lines: Seq<Seq<char>>, prefix: Seq<char>, k: int)
    requires
        1 <= k < lines.len(),
    ensures
        quoted(lines, prefix, 1) == lines[0],
        lines[k].len() > 0 ==> quoted(lines, prefix, k + 1) == quoted(lines, prefix, k) + seq![
            '\n',
        ] + prefix + lines[k],
        lines[k].len() == 0 ==> quoted(lines, prefix, k + 1) == quoted(lines, prefix, k) + seq![
            '\n',
        ] + trim_right(prefix),
{
    assert(quoted(lines, prefix, k) + seq!['\n'] + prefix + lines[k] =~= quoted(
        lines,
        prefix,
        k,
    ) + seq!['\n'] + (prefix + lines[k]));
}

/// Two lines pasted into a quote: the second one is quoted as deep as the first.
pub proof fn law_pasted_lines_stay_in_the_quote(
    first: Seq<char>,
    second: Seq<char>,
    prefix: Seq<char>,
)
    requires
        prefix.len() > 0,
        second.len() > 0,
        forall|k: int| 0 <= k < first.len() ==> is_kept(#[trigger] first[k]) && first[k] != '\n',
        forall|k: int| 0 <= k < second.len() ==> is_kept(#[trigger] second[k]) && second[k]
            != '\n',
    ensures
        transformed(first + seq!['\n'] + second, false, prefix) == first + seq!['\n'] + prefix
            + second,
{
    let text = first + seq!['\n'] + second;
    assert forall|k: int| 0 <= k < text.len() implies is_kept(#[trigger] text[k]) by {
        if k < first.len() {
            assert(text[k] == first[k]);
        } else if k > first.len() {
            assert(text[k] == second[k - first.len() - 1]);
        }
    }
    lemma_plain_stays(text, 0);
    assert(text.subrange(0, text.len() as int) =~= text);
    assert forall|k: int| 0 <= k < first.len() implies #[trigger] first[k] != '\n' by {
        assert(is_kept(first[k]));
    }
    assert forall|k: int| 0 <= k < second.len() implies #[trigger] second[k] != '\n' by {
        assert(is_kept(second[k]));
    }
    law_lines_end_at_breaks(first, second);
    law_lines_end_at_breaks(second, seq![]);
    let lines = lines_from(text, 0);
    assert(lines =~= seq![first, second]);
    law_quoted_lines(lines, prefix, 1);
}

} // verus!
