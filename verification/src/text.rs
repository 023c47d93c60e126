//! Text as bytes and as characters: slicing at character boundaries,
//! whitespace, decimal numbers and small string tools shared by the crate.
use vstd::prelude::*;
use vstd::string::*;
use vstd::utf8::*;

verus! {

// ---------------------------------------------------------------------------
// Bytes and characters
// ---------------------------------------------------------------------------

/// `a..b` is a byte range of `bytes` whose ends fall between characters.
pub open spec fn is_slice(bytes: Seq<u8>, a: int, b: int) -> bool {
    &&& 0 <= a <= b <= bytes.len()
    &&& is_char_boundary(bytes, a)
    &&& is_char_boundary(bytes, b)
}

/// The characters that the byte range `a..b` of `bytes` holds.
pub open spec fn chars_of(bytes: Seq<u8>, a: int, b: int) -> Seq<char> {
    decode_utf8(bytes.subrange(a, b))
}

/// `std::str::from_utf8`: fails on bytes that are not UTF-8, and on no others.
#[verifier::external_body]
pub(crate) fn is_utf8(bytes: &[u8]) -> (r: bool)
    ensures
        r == valid_utf8(bytes@),
{
    std::str::from_utf8(bytes).is_ok()
}

/// Encoding distributes over concatenation.
pub proof fn lemma_encode_concat(a: Seq<char>, b: Seq<char>)
    ensures
        encode_utf8(a + b) == encode_utf8(a) + encode_utf8(b),
    decreases a.len(),
{
    if a.len() == 0 {
        assert(a + b =~= b);
        assert(encode_utf8(a) + encode_utf8(b) =~= encode_utf8(b));
    } else {
        assert((a + b).drop_first() =~= a.drop_first() + b);
        lemma_encode_concat(a.drop_first(), b);
        assert(encode_utf8(a + b) =~= encode_utf8(a) + encode_utf8(b));
    }
}

/// Equal encodings come from equal characters.
pub proof fn lemma_encode_injective(a: Seq<char>, b: Seq<char>)
    requires
        encode_utf8(a) == encode_utf8(b),
    ensures
        a == b,
{
    encode_utf8_decode_utf8(a);
    encode_utf8_decode_utf8(b);
}

/// A character boundary of the tail is one of the whole, and the other way round.
pub proof fn lemma_boundary_tail(bytes: Seq<u8>, a: int, b: int)
    requires
        valid_utf8(bytes),
        0 <= a <= b <= bytes.len(),
        is_char_boundary(bytes, a),
    ensures
        valid_utf8(bytes.subrange(a, bytes.len() as int)),
        is_char_boundary(bytes.subrange(a, bytes.len() as int), b - a) <==> is_char_boundary(
            bytes,
            b,
        ),
{
    let tail = bytes.subrange(a, bytes.len() as int);
    valid_utf8_split(bytes, a);
    if b < bytes.len() {
        is_char_boundary_iff_not_is_continuation_byte(bytes, b);
        is_char_boundary_iff_not_is_continuation_byte(tail, b - a);
        assert(tail[b - a] == bytes[b]);
    } else {
        is_char_boundary_start_end_of_seq(bytes);
        is_char_boundary_start_end_of_seq(tail);
    }
}

/// A character boundary of a prefix is one of the whole, and the other way round.
pub proof fn lemma_boundary_head(bytes: Seq<u8>, a: int, b: int)
    requires
        valid_utf8(bytes),
        0 <= a <= b <= bytes.len(),
        is_char_boundary(bytes, b),
    ensures
        valid_utf8(bytes.subrange(0, b)),
        is_char_boundary(bytes.subrange(0, b), a) <==> is_char_boundary(bytes, a),
{
    let head = bytes.subrange(0, b);
    valid_utf8_split(bytes, b);
    if a < b {
        is_char_boundary_iff_not_is_continuation_byte(bytes, a);
        is_char_boundary_iff_not_is_continuation_byte(head, a);
        assert(head[a] == bytes[a]);
    } else {
        is_char_boundary_start_end_of_seq(head);
    }
}

/// A slice at character boundaries is itself valid text, and its boundaries are
/// the boundaries of the whole that lie in it.
pub proof fn lemma_slice_boundaries(bytes: Seq<u8>, a: int, b: int, i: int)
    requires
        valid_utf8(bytes),
        is_slice(bytes, a, b),
        a <= i <= b,
    ensures
        valid_utf8(bytes.subrange(a, b)),
        is_char_boundary(bytes.subrange(a, b), i - a) <==> is_char_boundary(bytes, i),
{
    let tail = bytes.subrange(a, bytes.len() as int);
    lemma_boundary_tail(bytes, a, i);
    lemma_boundary_tail(bytes, a, b);
    lemma_boundary_head(tail, i - a, b - a);
    assert(tail.subrange(0, b - a) =~= bytes.subrange(a, b));
}

/// Every ASCII byte of valid text is a whole character: both its ends are boundaries.
pub proof fn lemma_ascii_boundary(bytes: Seq<u8>, i: int)
    requires
        valid_utf8(bytes),
        0 <= i < bytes.len(),
        bytes[i] < 0x80,
    ensures
        is_char_boundary(bytes, i),
        is_char_boundary(bytes, i + 1),
{
    is_char_boundary_iff_not_is_continuation_byte(bytes, i);
    let tail = bytes.subrange(i, bytes.len() as int);
    lemma_boundary_tail(bytes, i, i + 1);
    assert(tail[0] == bytes[i]);
    reveal_with_fuel(is_char_boundary, 2);
    assert(valid_utf8(tail));
    assert(length_of_first_scalar(tail) == 1);
    assert(is_char_boundary(tail, 1));
}

/// The part of `s` in the byte range `a..b`.
pub fn slice<'a>(s: &'a str, a: usize, b: usize) -> (r: &'a str)
    requires
        is_slice(s.spec_bytes(), a as int, b as int),
    ensures
        r.spec_bytes() == s.spec_bytes().subrange(a as int, b as int),
        r@ == chars_of(s.spec_bytes(), a as int, b as int),
{
    proof {
        encode_utf8_valid_utf8(s@);
        lemma_boundary_tail(s.spec_bytes(), a as int, b as int);
    }
    let (_, tail) = s.split_at(a);
    let (r, _) = tail.split_at(b - a);
    proof {
        assert(r.spec_bytes() =~= s.spec_bytes().subrange(a as int, b as int));
        encode_utf8_decode_utf8(r@);
    }
    r
}

/// The length of `s` in bytes.
pub fn byte_len(s: &str) -> (n: usize)
    ensures
        n == s.spec_bytes().len(),
{
    s.as_bytes().len()
}

/// Whether two byte strings are the same.
pub fn bytes_eq(a: &[u8], b: &[u8]) -> (r: bool)
    ensures
        r == (a@ == b@),
{
    if a.len() != b.len() {
        return false;
    }
    let mut i: usize = 0;
    while i < a.len()
        invariant
            a@.len() == b@.len(),
            i <= a@.len(),
            forall|j: int| 0 <= j < i ==> a@[j] == b@[j],
        decreases a@.len() - i,
    {
        if a[i] != b[i] {
            return false;
        }
        i += 1;
    }
    assert(a@ =~= b@);
    true
}

/// Whether two strings are the same.
pub fn str_eq(a: &str, b: &str) -> (r: bool)
    ensures
        r == (a@ == b@),
{
    let r = bytes_eq(a.as_bytes(), b.as_bytes());
    proof {
        if r {
            lemma_encode_injective(a@, b@);
        }
    }
    r
}

/// `bytes` holds `pat` at offset `i`.
pub open spec fn matches_at(bytes: Seq<u8>, pat: Seq<u8>, i: int) -> bool {
    &&& 0 <= i
    &&& i + pat.len() <= bytes.len()
    &&& bytes.subrange(i, i + pat.len()) == pat
}

/// Whether `bytes` holds `pat` at offset `i`.
pub fn has_at(bytes: &[u8], pat: &[u8], i: usize) -> (r: bool)
    ensures
        r == matches_at(bytes@, pat@, i as int),
{
    if i > bytes.len() || bytes.len() - i < pat.len() {
        return false;
    }
    let len = bytes.len();
    let mut j: usize = 0;
    while j < pat.len()
        invariant
            len == bytes@.len(),
            i + pat@.len() <= len,
            j <= pat@.len(),
            forall|k: int| 0 <= k < j ==> bytes@[i + k] == pat@[k],
        decreases pat@.len() - j,
    {
        if bytes[i + j] != pat[j] {
            assert(bytes@.subrange(i as int, i + pat@.len())[j as int] != pat@[j as int]);
            return false;
        }
        j += 1;
    }
    assert(bytes@.subrange(i as int, i + pat@.len()) =~= pat@);
    true
}

/// `s` ends in `suffix`.
pub open spec fn has_suffix(s: Seq<char>, suffix: Seq<char>) -> bool {
    &&& suffix.len() <= s.len()
    &&& s.subrange(s.len() - suffix.len(), s.len() as int) == suffix
}

/// Whether `s` ends in `suffix`.
pub fn ends_with(s: &str, suffix: &str) -> (r: bool)
    ensures
        r == has_suffix(s@, suffix@),
{
    let v = chars_vec(s);
    let w = chars_vec(suffix);
    if w.len() > v.len() {
        return false;
    }
    let n = v.len();
    let off = n - w.len();
    let mut i: usize = 0;
    while i < w.len()
        invariant
            v@ == s@,
            w@ == suffix@,
            i <= w@.len(),
            n == v@.len(),
            off + w@.len() == n,
            forall|j: int| 0 <= j < i ==> v@[off + j] == w@[j],
        decreases w@.len() - i,
    {
        if v[off + i] != w[i] {
            assert(s@.subrange(off as int, s@.len() as int)[i as int] != suffix@[i as int]);
            return false;
        }
        i += 1;
    }
    assert(s@.subrange(off as int, s@.len() as int) =~= suffix@);
    true
}

/// The characters of `s`, one by one.
pub fn chars_vec(s: &str) -> (v: Vec<char>)
    ensures
        v@ == s@,
{
    let mut v: Vec<char> = Vec::new();
    let it = s.chars();
    for c in iter: it
        invariant
            iter.seq() == s@,
            v@ == s@.subrange(0, iter.index() as int),
    {
        v.push(c);
        assert(v@ =~= s@.subrange(0, iter.index() as int + 1));
    }
    assert(v@ =~= s@);
    v
}

/// `Range::clone`: a range is cloned by cloning its two ends.
pub assume_specification<Idx>[ <std::ops::Range<Idx> as std::clone::Clone>::clone ](
    r: &std::ops::Range<Idx>,
) -> (res: std::ops::Range<Idx>) where Idx: std::clone::Clone
    ensures
        cloned(r.start, res.start),
        cloned(r.end, res.end),
;

/// Appends one character: `String::push`, which appends the given character to the
/// end of the string.
#[verifier::external_body]
pub(crate) fn push_char(s: &mut String, c: char)
    ensures
        final(s)@ == old(s)@.push(c),
{
    s.push(c)
}

/// The string made of the characters `v[from..to]`.
pub fn string_of(v: &Vec<char>, from: usize, to: usize) -> (s: String)
    requires
        from <= to <= v@.len(),
    ensures
        s@ == v@.subrange(from as int, to as int),
{
    let mut s = String::new();
    let mut i: usize = from;
    while i < to
        invariant
            from <= i <= to <= v@.len(),
            s@ == v@.subrange(from as int, i as int),
        decreases to - i,
    {
        push_char(&mut s, v[i]);
        i += 1;
        assert(s@ =~= v@.subrange(from as int, i as int));
    }
    s
}

// ---------------------------------------------------------------------------
// Whitespace
// ---------------------------------------------------------------------------

/// The Unicode `White_Space` characters.
pub open spec fn is_space(c: char) -> bool {
    let u = c as u32;
    ||| 0x09 <= u <= 0x0d
    ||| u == 0x20
    ||| u == 0x85
    ||| u == 0xa0
    ||| u == 0x1680
    ||| 0x2000 <= u <= 0x200a
    ||| u == 0x2028
    ||| u == 0x2029
    ||| u == 0x202f
    ||| u == 0x205f
    ||| u == 0x3000
}

/// Whether `c` is whitespace.
pub fn is_whitespace(c: char) -> (r: bool)
    ensures
        r == is_space(c),
{
    let u = c as u32;
    (0x09 <= u && u <= 0x0d) || u == 0x20 || u == 0x85 || u == 0xa0 || u == 0x1680 || (0x2000 <= u
        && u <= 0x200a) || u == 0x2028 || u == 0x2029 || u == 0x202f || u == 0x205f || u == 0x3000
}

/// Every character of `s` is whitespace.
pub open spec fn all_space(s: Seq<char>) -> bool {
    forall|i: int| 0 <= i < s.len() ==> is_space(#[trigger] s[i])
}

/// Whether every character of `s` is whitespace.
pub fn is_all_whitespace(s: &str) -> (r: bool)
    ensures
        r == all_space(s@),
{
    let v = chars_vec(s);
    let mut i: usize = 0;
    while i < v.len()
        invariant
            v@ == s@,
            i <= v@.len(),
            forall|j: int| 0 <= j < i ==> is_space(#[trigger] s@[j]),
        decreases v@.len() - i,
    {
        if !is_whitespace(v[i]) {
            assert(!is_space(s@[i as int]));
            return false;
        }
        i += 1;
    }
    true
}

/// `s` without its leading whitespace.
pub open spec fn trim_left(s: Seq<char>) -> Seq<char>
    decreases s.len(),
{
    if s.len() > 0 && is_space(s[0]) {
        trim_left(s.drop_first())
    } else {
        s
    }
}

/// `s` without its trailing whitespace.
pub open spec fn trim_right(s: Seq<char>) -> Seq<char>
    decreases s.len(),
{
    if s.len() > 0 && is_space(s.last()) {
        trim_right(s.drop_last())
    } else {
        s
    }
}

/// `s` without its leading and trailing whitespace.
pub open spec fn trimmed(s: Seq<char>) -> Seq<char> {
    trim_right(trim_left(s))
}

proof fn lemma_trim_left_skip(s: Seq<char>, i: int)
    requires
        0 <= i <= s.len(),
        forall|j: int| 0 <= j < i ==> is_space(#[trigger] s[j]),
    ensures
        trim_left(s) == trim_left(s.subrange(i, s.len() as int)),
    decreases i,
{
    if i == 0 {
        assert(s.subrange(0, s.len() as int) =~= s);
    } else {
        assert(is_space(s[0]));
        let t = s.drop_first();
        assert forall|j: int| 0 <= j < i - 1 implies is_space(#[trigger] t[j]) by {
            assert(is_space(s[j + 1]));
        }
        lemma_trim_left_skip(t, i - 1);
        assert(t.subrange(i - 1, t.len() as int) =~= s.subrange(i, s.len() as int));
    }
}

proof fn lemma_trim_right_skip(s: Seq<char>, i: int)
    requires
        0 <= i <= s.len(),
        forall|j: int| i <= j < s.len() ==> is_space(#[trigger] s[j]),
    ensures
        trim_right(s) == trim_right(s.subrange(0, i)),
    decreases s.len() - i,
{
    if i == s.len() {
        assert(s.subrange(0, i) =~= s);
    } else {
        assert(is_space(s.last()));
        let t = s.drop_last();
        assert forall|j: int| i <= j < t.len() implies is_space(#[trigger] t[j]) by {
            assert(is_space(s[j]));
        }
        lemma_trim_right_skip(t, i);
        assert(t.subrange(0, i) =~= s.subrange(0, i));
    }
}

/// The first index at or after `from` whose character is no whitespace.
pub fn skip_spaces(v: &Vec<char>, from: usize) -> (r: usize)
    requires
        from <= v@.len(),
    ensures
        from <= r <= v@.len(),
        forall|j: int| from <= j < r ==> is_space(#[trigger] v@[j]),
        r < v@.len() ==> !is_space(v@[r as int]),
{
    let mut i: usize = from;
    while i < v.len() && is_whitespace(v[i])
        invariant
            from <= i <= v@.len(),
            forall|j: int| from <= j < i ==> is_space(#[trigger] v@[j]),
        decreases v@.len() - i,
    {
        i += 1;
    }
    i
}

/// The index after the last character before `to` that is no whitespace.
pub fn skip_spaces_back(v: &Vec<char>, from: usize, to: usize) -> (r: usize)
    requires
        from <= to <= v@.len(),
    ensures
        from <= r <= to,
        forall|j: int| r <= j < to ==> is_space(#[trigger] v@[j]),
        r > from ==> !is_space(v@[r - 1]),
{
    let mut i: usize = to;
    while i > from && is_whitespace(v[i - 1])
        invariant
            from <= i <= to <= v@.len(),
            forall|j: int| i <= j < to ==> is_space(#[trigger] v@[j]),
        decreases i,
    {
        i -= 1;
    }
    i
}

/// `s` without leading and trailing whitespace.
pub fn trim(s: &str) -> (r: String)
    ensures
        r@ == trimmed(s@),
{
    let v = chars_vec(s);
    let a = skip_spaces(&v, 0);
    let b = skip_spaces_back(&v, a, v.len());
    proof {
        let t = s@.subrange(a as int, s@.len() as int);
        lemma_trim_left_skip(s@, a as int);
        assert(trim_left(t) == t);
        assert forall|j: int| b - a <= j < t.len() implies is_space(#[trigger] t[j]) by {
            assert(is_space(v@[j + a]));
        }
        lemma_trim_right_skip(t, b - a);
        assert(t.subrange(0, b - a) =~= v@.subrange(a as int, b as int));
        let u = v@.subrange(a as int, b as int);
        if u.len() > 0 {
            assert(u.last() == v@[b - 1]);
        }
        assert(trim_right(u) == u);
    }
    string_of(&v, a, b)
}

/// `s` without leading whitespace.
pub fn trim_start(s: &str) -> (r: String)
    ensures
        r@ == trim_left(s@),
        encode_utf8(r@).len() <= s.spec_bytes().len(),
{
    let v = chars_vec(s);
    let a = skip_spaces(&v, 0);
    proof {
        lemma_trim_left_skip(s@, a as int);
        let t = s@.subrange(a as int, s@.len() as int);
        assert(trim_left(t) == t);
        let head = s@.subrange(0, a as int);
        lemma_encode_concat(head, t);
        assert(head + t =~= s@);
    }
    string_of(&v, a, v.len())
}

/// `s` without trailing whitespace.
pub fn trim_end(s: &str) -> (r: String)
    ensures
        r@ == trim_right(s@),
        encode_utf8(r@).len() <= s.spec_bytes().len(),
{
    let v = chars_vec(s);
    let b = skip_spaces_back(&v, 0, v.len());
    proof {
        lemma_trim_right_skip(s@, b as int);
        let u = v@.subrange(0, b as int);
        let tail = v@.subrange(b as int, v@.len() as int);
        lemma_encode_concat(u, tail);
        assert(u + tail =~= s@);
        if u.len() > 0 {
            assert(u.last() == v@[b - 1]);
        }
        assert(trim_right(u) == u);
    }
    string_of(&v, 0, b)
}

// ---------------------------------------------------------------------------
// Decimal numbers
// ---------------------------------------------------------------------------

/// The ten decimal digits.
pub open spec fn digit_char(d: nat) -> char {
    (48 + d) as char
}

/// The decimal digits of `n`, without leading zeros ("0" for zero).
pub open spec fn decimal(n: nat) -> Seq<char>
    decreases n,
{
    if n < 10 {
        seq![digit_char(n)]
    } else {
        decimal(n / 10).push(digit_char(n % 10))
    }
}

/// `n` in decimal.
pub fn decimal_string(n: u64) -> (s: String)
    ensures
        s@ == decimal(n as nat),
    decreases n,
{
    if n < 10 {
        let mut s = String::new();
        push_char(&mut s, (48 + n as u8) as char);
        assert(s@ =~= decimal(n as nat));
        s
    } else {
        let mut s = decimal_string(n / 10);
        push_char(&mut s, (48 + (n % 10) as u8) as char);
        s
    }
}

/// Whether `b` is an ASCII digit.
pub open spec fn is_digit(b: u8) -> bool {
    48 <= b <= 57
}

/// The number that a string of ASCII digits writes.
pub open spec fn number_of(digits: Seq<u8>) -> nat
    decreases digits.len(),
{
    if digits.len() == 0 {
        0
    } else {
        number_of(digits.drop_last()) * 10 + (digits.last() - 48) as nat
    }
}

/// The decimal digits of a number write that number.
pub proof fn lemma_decimal(n: nat)
    ensures
        decimal(n).len() > 0,
        forall|i: int| 0 <= i < decimal(n).len() ==> '0' <= #[trigger] decimal(n)[i] <= '9',
        forall|i: int|
            0 <= i < encode_utf8(decimal(n)).len() ==> is_digit(
                #[trigger] encode_utf8(decimal(n))[i],
            ),
        encode_utf8(decimal(n)).len() == decimal(n).len(),
        number_of(encode_utf8(decimal(n))) == n,
    decreases n,
{
    let s = decimal(n);
    let d = digit_char(n % 10);
    assert('0' <= d <= '9');
    if n >= 10 {
        lemma_decimal(n / 10);
        assert forall|i: int| 0 <= i < s.len() implies '0' <= #[trigger] s[i] <= '9' by {
            if i < s.len() - 1 {
                assert(s[i] == decimal(n / 10)[i]);
            }
        }
    }
    assert(is_ascii_chars(s));
    is_ascii_chars_encode_utf8(s);
    let e = encode_utf8(s);
    assert forall|i: int| 0 <= i < e.len() implies is_digit(#[trigger] e[i]) by {
        assert(s[i] as u8 == e[i]);
    }
    assert(s.last() == d);
    assert(e.last() == 48 + n % 10);
    if n >= 10 {
        lemma_encode_concat(decimal(n / 10), seq![d]);
        assert(s =~= decimal(n / 10) + seq![d]);
        assert(is_ascii_chars(seq![d]));
        is_ascii_chars_encode_utf8(seq![d]);
        assert(e.drop_last() =~= encode_utf8(decimal(n / 10)));
    } else {
        assert(number_of(e.drop_last()) == 0);
    }
    assert(number_of(e) == number_of(e.drop_last()) * 10 + (e.last() - 48) as nat);
}

/// A part of a text is what its byte range holds.
pub proof fn lemma_part_of_text(before: Seq<char>, part: Seq<char>, after: Seq<char>)
    ensures
        ({
            let bytes = encode_utf8(before + part + after);
            let a = encode_utf8(before).len() as int;
            let b = encode_utf8(before + part).len() as int;
            &&& 0 <= a <= b <= bytes.len()
            &&& bytes.subrange(a, b) == encode_utf8(part)
            &&& chars_of(bytes, a, b) == part
        }),
{
    lemma_encode_concat(before, part);
    lemma_encode_concat(before + part, after);
    let bytes = encode_utf8(before + part + after);
    let a = encode_utf8(before).len() as int;
    let b = encode_utf8(before + part).len() as int;
    assert(bytes.subrange(a, b) =~= encode_utf8(part));
    encode_utf8_decode_utf8(part);
}

/// The number that the digits `bytes[from..to]` write, when there is at least one
/// and the number is at most `max`.
pub fn parse_number(bytes: &[u8], from: usize, to: usize, max: u64) -> (r: Option<u64>)
    requires
        from <= to <= bytes@.len(),
        forall|i: int| from <= i < to ==> is_digit(#[trigger] bytes@[i]),
    ensures
        r == (if from < to && number_of(bytes@.subrange(from as int, to as int)) <= max {
            Some(number_of(bytes@.subrange(from as int, to as int)) as u64)
        } else {
            None
        }),
{
    if from == to {
        return None;
    }
    let mut n: u64 = 0;
    let mut i: usize = from;
    while i < to
        invariant
            from <= i <= to <= bytes@.len(),
            forall|i: int| from <= i < to ==> is_digit(#[trigger] bytes@[i]),
            n == number_of(bytes@.subrange(from as int, i as int)),
            n <= max,
        decreases to - i,
    {
        assert(is_digit(bytes@[i as int]));
        let d: u64 = (bytes[i] - 48) as u64;
        let ghost upto = bytes@.subrange(from as int, i + 1);
        proof {
            assert(upto.drop_last() =~= bytes@.subrange(from as int, i as int));
            lemma_number_prefix(bytes@.subrange(from as int, to as int), i + 1 - from);
            assert(bytes@.subrange(from as int, to as int).subrange(0, i + 1 - from) =~= upto);
        }
        if n > (u64::MAX - d) / 10 {
            assert(number_of(upto) > u64::MAX);
            return None;
        }
        n = n * 10 + d;
        if n > max {
            return None;
        }
        i += 1;
    }
    Some(n)
}

proof fn lemma_number_prefix(digits: Seq<u8>, k: int)
    requires
        0 <= k <= digits.len(),
        forall|i: int| 0 <= i < digits.len() ==> is_digit(#[trigger] digits[i]),
    ensures
        number_of(digits.subrange(0, k)) <= number_of(digits),
    decreases digits.len(),
{
    if k == digits.len() {
        assert(digits.subrange(0, k) =~= digits);
    } else {
        let t = digits.drop_last();
        assert forall|i: int| 0 <= i < t.len() implies is_digit(#[trigger] t[i]) by {
            assert(is_digit(digits[i]));
        }
        lemma_number_prefix(t, k);
        assert(t.subrange(0, k) =~= digits.subrange(0, k));
    }
}

/// ASCII whitespace: space, tab, line feed, form feed and carriage return.
pub open spec fn is_ascii_space(b: u8) -> bool {
    b == 0x20 || b == 0x09 || b == 0x0a || b == 0x0c || b == 0x0d
}

/// Whether a byte is ASCII whitespace.
pub fn ascii_space(b: u8) -> (r: bool)
    ensures
        r == is_ascii_space(b),
{
    b == 0x20 || b == 0x09 || b == 0x0a || b == 0x0c || b == 0x0d
}

// ---------------------------------------------------------------------------
// Laws
// ---------------------------------------------------------------------------

/// Trimming takes away whitespace at the ends, all of it, and nothing else.
pub proof fn law_trimming(s: Seq<char>)
    ensures
        exists|n: int|
            0 <= n <= s.len() && trim_left(s) == #[trigger] s.subrange(n, s.len() as int)
                && all_space(s.subrange(0, n)),
        trim_left(s).len() > 0 ==> !is_space(trim_left(s)[0]),
        exists|n: int|
            0 <= n <= s.len() && trim_right(s) == #[trigger] s.subrange(0, n) && all_space(
                s.subrange(n, s.len() as int),
            ),
        trim_right(s).len() > 0 ==> !is_space(trim_right(s).last()),
        trimmed(s) == trim_right(trim_left(s)),
{
    law_trim_left(s);
    law_trim_right(s);
}

proof fn law_trim_left(s: Seq<char>)
    ensures
        exists|n: int|
            0 <= n <= s.len() && trim_left(s) == #[trigger] s.subrange(n, s.len() as int)
                && all_space(s.subrange(0, n)),
        trim_left(s).len() > 0 ==> !is_space(trim_left(s)[0]),
    decreases s.len(),
{
    if s.len() > 0 && is_space(s[0]) {
        let t = s.drop_first();
        law_trim_left(t);
        let n = choose|n: int|
            0 <= n <= t.len() && trim_left(t) == #[trigger] t.subrange(n, t.len() as int)
                && all_space(t.subrange(0, n));
        assert(s.subrange(n + 1, s.len() as int) =~= t.subrange(n, t.len() as int));
        assert forall|i: int| 0 <= i < n + 1 implies is_space(
            #[trigger] s.subrange(0, n + 1)[i],
        ) by {
            if i > 0 {
                assert(s.subrange(0, n + 1)[i] == t.subrange(0, n)[i - 1]);
            }
        }
    } else {
        assert(s.subrange(0, s.len() as int) =~= s);
        assert(all_space(s.subrange(0, 0)));
    }
}

proof fn law_trim_right(s: Seq<char>)
    ensures
        exists|n: int|
            0 <= n <= s.len() && trim_right(s) == #[trigger] s.subrange(0, n) && all_space(
                s.subrange(n, s.len() as int),
            ),
        trim_right(s).len() > 0 ==> !is_space(trim_right(s).last()),
    decreases s.len(),
{
    let m = s.len() as int;
    if m > 0 && is_space(s.last()) {
        let t = s.drop_last();
        law_trim_right(t);
        let n = choose|n: int|
            0 <= n <= t.len() && trim_right(t) == #[trigger] t.subrange(0, n) && all_space(
                t.subrange(n, t.len() as int),
            );
        assert(s.subrange(0, n) =~= t.subrange(0, n));
        assert forall|i: int| 0 <= i < m - n implies is_space(#[trigger] s.subrange(n, m)[i]) by {
            if i < m - n - 1 {
                assert(s.subrange(n, m)[i] == t.subrange(n, t.len() as int)[i]);
            }
        }
    } else {
        assert(s.subrange(0, m) =~= s);
        assert(all_space(s.subrange(m, m)));
    }
}

/// Among the ASCII characters, the space and those from the tab to the carriage return are
/// whitespace; the no-break space and the ideographic space are too.
pub proof fn law_spaces(c: char)
    ensures
        (c as u32) < 128 ==> is_space(c) == (c as u32 == 32 || 9 <= c as u32 <= 13),
        c as u32 == 0xa0 || c as u32 == 0x3000 || c as u32 == 0x2003 ==> is_space(c),
        c as u32 == 0x200b ==> !is_space(c),
{
}

/// ASCII whitespace is the space, the tab, the line feed, the form feed and the carriage
/// return.
pub proof fn law_ascii_spaces(b: u8)
    ensures
        is_ascii_space(b) == (b == 32 || b == 9 || b == 10 || b == 12 || b == 13),
{
}

/// The decimal digits of a number: the last one is the rest by ten, those before it are
/// the digits of the tenth, and no number but zero starts with a zero.
pub proof fn law_decimal_digits(n: nat)
    ensures
        decimal(n).len() > 0,
        decimal(n).last() as u32 == 48 + n % 10,
        n < 10 ==> decimal(n).len() == 1,
        n >= 10 ==> decimal(n).drop_last() == decimal(n / 10),
        n > 0 ==> decimal(n)[0] != '0',
    decreases n,
{
    if n >= 10 {
        law_decimal_digits(n / 10);
        assert(decimal(n).drop_last() =~= decimal(n / 10));
        assert(decimal(n)[0] == decimal(n / 10)[0]);
    }
}

/// Digits are read from the left: each one counts ten times less than the one before it.
pub proof fn law_numbers_are_read(digits: Seq<u8>, d: u8)
    requires
        48 <= d <= 57,
    ensures
        number_of(digits.push(d)) == number_of(digits) * 10 + (d - 48),
        number_of(Seq::<u8>::empty()) == 0,
{
    assert(digits.push(d).drop_last() =~= digits);
}

/// A pattern stands at an offset where each of its bytes does.
pub proof fn law_matching(bytes: Seq<u8>, pat: Seq<u8>, i: int)
    ensures
        matches_at(bytes, pat, i) <==> 0 <= i && i + pat.len() <= bytes.len() && forall|k: int|
            0 <= k < pat.len() ==> #[trigger] pat[k] == bytes[i + k],
{
    if matches_at(bytes, pat, i) {
        assert forall|k: int| 0 <= k < pat.len() implies #[trigger] pat[k] == bytes[i + k] by {
            assert(bytes.subrange(i, i + pat.len())[k] == pat[k]);
        }
    } else if 0 <= i && i + pat.len() <= bytes.len() && forall|k: int|
        0 <= k < pat.len() ==> #[trigger] pat[k] == bytes[i + k] {
        assert(bytes.subrange(i, i + pat.len()) =~= pat);
    }
}

/// A text ends in what it was put before.
pub proof fn law_suffixes(s: Seq<char>, t: Seq<char>)
    ensures
        has_suffix(s + t, t),
        has_suffix(s, t) ==> s.len() >= t.len() && forall|k: int|
            0 <= k < t.len() ==> #[trigger] t[k] == s[s.len() - t.len() + k],
{
    let u = s + t;
    assert(u.subrange(u.len() - t.len(), u.len() as int) =~= t);
    if has_suffix(s, t) {
        assert forall|k: int| 0 <= k < t.len() implies #[trigger] t[k] == s[s.len() - t.len() + k] by {
            assert(s.subrange(s.len() - t.len(), s.len() as int)[k] == t[k]);
        }
    }
}

} // verus!
