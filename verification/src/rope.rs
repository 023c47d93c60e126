//! The document buffer: what the crate asks of `ropey::Rope`.
use crate::text::is_slice;
use vstd::prelude::*;
use vstd::string::*;
use vstd::utf8::*;

verus! {

#[verifier::external_type_specification]
#[verifier::external_body]
pub struct ExRope(ropey::Rope);

/// The characters that a rope holds.
pub uninterp spec fn rope_text(r: ropey::Rope) -> Seq<char>;

/// The bytes that a rope holds.
pub open spec fn rope_bytes(r: ropey::Rope) -> Seq<u8> {
    encode_utf8(rope_text(r))
}

/// A line break ends right before byte `i`: one of LF, VT, FF, CR (unless an LF
/// follows it), NEL, LS or PS.
pub open spec fn break_ends_at(bytes: Seq<u8>, i: int) -> bool {
    &&& 0 < i <= bytes.len()
    &&& {
        let b = bytes[i - 1];
        ||| b == 0x0a
        ||| b == 0x0b
        ||| b == 0x0c
        ||| b == 0x0d && !(i < bytes.len() && bytes[i] == 0x0a)
        ||| b == 0x85 && i >= 2 && bytes[i - 2] == 0xc2
        ||| (b == 0xa8 || b == 0xa9) && i >= 3 && bytes[i - 2] == 0x80 && bytes[i - 3] == 0xe2
    }
}

/// The line of the byte offset `i`: how many line breaks end at or before it.
pub open spec fn line_of(bytes: Seq<u8>, i: int) -> int
    decreases i,
{
    if i <= 0 {
        0
    } else {
        line_of(bytes, i - 1) + (if break_ends_at(bytes, i) {
            1int
        } else {
            0int
        })
    }
}

/// How many lines there are: one more than line breaks.
pub open spec fn line_count(bytes: Seq<u8>) -> int {
    line_of(bytes, bytes.len() as int) + 1
}

/// `start` is where line `l` starts: the first byte offset on that line.
pub open spec fn starts_line(bytes: Seq<u8>, l: int, start: int) -> bool {
    &&& 0 <= start <= bytes.len()
    &&& line_of(bytes, start) == l
    &&& start == 0 || break_ends_at(bytes, start)
}

/// `Rope::len_bytes`: the number of bytes in the rope.
#[verifier::external_body]
pub(crate) fn rope_len(r: &ropey::Rope) -> (n: usize)
    ensures
        n == encode_utf8(rope_text(*r)).len(),
{
    r.len_bytes()
}

/// `Rope::get_byte`: the byte at an index, `None` past the end.
#[verifier::external_body]
pub(crate) fn rope_byte(r: &ropey::Rope, i: usize) -> (b: Option<u8>)
    ensures
        b == (if i < rope_bytes(*r).len() {
            Some(rope_bytes(*r)[i as int])
        } else {
            None
        }),
{
    r.get_byte(i)
}

/// `Rope::byte_slice`: the text in a byte range. It panics where the range is not
/// one between two characters of the rope.
#[verifier::external_body]
pub(crate) fn rope_slice(r: &ropey::Rope, start: usize, end: usize) -> (s: String)
    requires
        is_slice(rope_bytes(*r), start as int, end as int),
    ensures
        encode_utf8(s@) == rope_bytes(*r).subrange(start as int, end as int),
{
    r.byte_slice(start..end).to_string()
}

/// `Rope::len_lines`: the number of lines, the last of which may be empty.
#[verifier::external_body]
pub(crate) fn rope_line_count(r: &ropey::Rope) -> (n: usize)
    ensures
        n == line_count(rope_bytes(*r)),
{
    r.len_lines()
}

/// `Rope::byte_to_line`: the line of a byte, which is the number of line breaks
/// before it. It panics past the end.
#[verifier::external_body]
pub(crate) fn rope_byte_to_line(r: &ropey::Rope, i: usize) -> (l: usize)
    requires
        i <= rope_bytes(*r).len(),
    ensures
        l == line_of(rope_bytes(*r), i as int),
{
    r.byte_to_line(i)
}

/// `Rope::line_to_byte`: the byte at which a line starts. It panics past the last
/// line.
#[verifier::external_body]
pub(crate) fn rope_line_to_byte(r: &ropey::Rope, l: usize) -> (i: usize)
    requires
        l < line_count(rope_bytes(*r)),
    ensures
        starts_line(rope_bytes(*r), l as int, i as int),
{
    r.line_to_byte(l)
}

/// A later byte is on a later line or on the same one.
pub proof fn lemma_line_of_monotone(bytes: Seq<u8>, i: int, j: int)
    requires
        0 <= i <= j,
    ensures
        0 <= line_of(bytes, i) <= line_of(bytes, j),
    decreases j,
{
    if j > 0 {
        if i < j {
            lemma_line_of_monotone(bytes, i, j - 1);
        } else {
            lemma_line_of_monotone(bytes, i - 1, j - 1);
        }
    }
}

/// Lines are counted from zero and end with a line feed, or with a carriage return that no
/// line feed follows; printable ASCII characters end none.
pub proof fn law_lines_are_counted(bytes: Seq<u8>, i: int)
    requires
        0 <= i < bytes.len(),
    ensures
        line_of(bytes, 0) == 0,
        bytes[i] == 10 ==> line_of(bytes, i + 1) == line_of(bytes, i) + 1,
        bytes[i] == 13 && i + 1 < bytes.len() && bytes[i + 1] == 10 ==> line_of(bytes, i + 1)
            == line_of(bytes, i),
        bytes[i] == 13 && (i + 1 == bytes.len() || bytes[i + 1] != 10) ==> line_of(bytes, i + 1)
            == line_of(bytes, i) + 1,
        32 <= bytes[i] <= 126 || bytes[i] == 9 ==> line_of(bytes, i + 1) == line_of(bytes, i),
        line_count(bytes) == line_of(bytes, bytes.len() as int) + 1,
        line_count(Seq::<u8>::empty()) == 1,
{
}

} // verus!
