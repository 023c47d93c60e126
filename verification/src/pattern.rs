//! Regular expressions: compiled patterns and the captures that they find.
use crate::refs::ISSUE_URL;
use crate::text::is_slice;
use vstd::prelude::*;
use vstd::string::*;
use vstd::utf8::*;

verus! {

#[verifier::external_type_specification]
#[verifier::external_body]
pub struct ExRegex(regex::Regex);

/// The source that a regular expression was compiled from.
pub uninterp spec fn regex_source(re: regex::Regex) -> Seq<char>;

/// The source is a regular expression.
pub uninterp spec fn regex_compiles(source: Seq<char>) -> bool;

/// The successive matches of a regular expression in a text; of each match the byte
/// ranges of its groups, `None` for a group that takes no part in it.
pub uninterp spec fn regex_captures(source: Seq<char>, text: Seq<char>) -> Seq<
    Seq<Option<(int, int)>>,
>;

/// The groups of a match: byte ranges of the text, the whole match first.
pub type Groups = Vec<Option<(usize, usize)>>;

/// The groups of a match as numbers.
pub open spec fn groups_view(g: Groups) -> Seq<Option<(int, int)>> {
    g@.map_values(
        |s: Option<(usize, usize)>|
            match s {
                Some((a, b)) => Some((a as int, b as int)),
                None => None,
            },
    )
}

/// The groups of some matches as numbers.
pub open spec fn captures_view(caps: Seq<Groups>) -> Seq<Seq<Option<(int, int)>>> {
    caps.map_values(|g: Groups| groups_view(g))
}

/// Every group of a match is a slice of the text, and the whole match is there.
pub open spec fn groups_fit(g: Groups, bytes: Seq<u8>) -> bool {
    &&& g@.len() > 0
    &&& g@[0] is Some
    &&& forall|i: int|
        0 <= i < g@.len() && (#[trigger] g@[i]) is Some ==> is_slice(
            bytes,
            g@[i]->Some_0.0 as int,
            g@[i]->Some_0.1 as int,
        )
}

/// Each match ends before the next one starts, or where it does.
pub open spec fn in_order(caps: Seq<Seq<Option<(int, int)>>>) -> bool {
    forall|i: int, j: int|
        0 <= i < j < caps.len() ==> (#[trigger] caps[i])[0]->Some_0.1 <= (
        #[trigger] caps[j])[0]->Some_0.0
}

// ---------------------------------------------------------------------------
// Issue URLs
// ---------------------------------------------------------------------------

/// `[a-zA-Z0-9-]`
pub open spec fn is_owner_char(c: char) -> bool {
    'a' <= c <= 'z' || 'A' <= c <= 'Z' || '0' <= c <= '9' || c == '-'
}

/// `[a-zA-Z0-9._-]`
pub open spec fn is_repo_char(c: char) -> bool {
    is_owner_char(c) || c == '.' || c == '_'
}

/// `[a-zA-Z0-9-]+`
pub open spec fn is_owner(s: Seq<char>) -> bool {
    s.len() > 0 && forall|i: int| 0 <= i < s.len() ==> is_owner_char(#[trigger] s[i])
}

/// `[a-zA-Z0-9._-]+`
pub open spec fn is_repo(s: Seq<char>) -> bool {
    s.len() > 0 && forall|i: int| 0 <= i < s.len() ==> is_repo_char(#[trigger] s[i])
}

/// `[0-9]+`
pub open spec fn is_digits(s: Seq<char>) -> bool {
    s.len() > 0 && forall|i: int| 0 <= i < s.len() ==> '0' <= #[trigger] s[i] <= '9'
}

/// The part of the URL between a repository and the number of an issue or PR.
pub open spec fn is_page(s: Seq<char>) -> bool {
    s == "/issues/"@ || s == "/pull/"@
}

/// The URL of an issue or PR.
pub open spec fn issue_url(
    owner: Seq<char>,
    repo: Seq<char>,
    page: Seq<char>,
    digits: Seq<char>,
) -> Seq<char> {
    "https://github.com/"@ + (owner + "/"@ + repo) + page + digits
}

/// The byte range of `part` in a text where `before` precedes it.
pub open spec fn range_behind(before: Seq<char>, part: Seq<char>) -> Option<(int, int)> {
    Some((encode_utf8(before).len() as int, encode_utf8(before + part).len() as int))
}

/// The groups of the URL of an issue or PR: all of it, owner, repo, number.
pub open spec fn issue_url_groups(
    owner: Seq<char>,
    repo: Seq<char>,
    page: Seq<char>,
    digits: Seq<char>,
) -> Seq<Option<(int, int)>> {
    let site = "https://github.com/"@;
    seq![
        range_behind(seq![], issue_url(owner, repo, page, digits)),
        range_behind(site, owner),
        range_behind(site + (owner + "/"@), repo),
        range_behind(site + (owner + "/"@ + repo) + page, digits),
    ]
}

/// Where the source is that of [`ISSUE_URL`] and the text the URL of an issue or PR, the
/// matches are one: the whole text, cut into owner, repo and number.
pub open spec fn reads_issue_urls(
    source: Seq<char>,
    text: Seq<char>,
    caps: Seq<Seq<Option<(int, int)>>>,
) -> bool {
    source == ISSUE_URL@ ==> forall|
        owner: Seq<char>,
        repo: Seq<char>,
        page: Seq<char>,
        digits: Seq<char>,
    |
        is_owner(owner) && is_repo(repo) && is_page(page) && is_digits(digits) && text
            == #[trigger] issue_url(owner, repo, page, digits) ==> caps == seq![
            issue_url_groups(owner, repo, page, digits),
        ]
}

// ---------------------------------------------------------------------------
// Compiled patterns
// ---------------------------------------------------------------------------

/// `Regex::new`: compiles a source, and fails on one that is no regular expression. The
/// source of [`ISSUE_URL`] is one: it is made of literals, classes, repetitions, groups
/// and one alternation, in the documented syntax.
#[verifier::external_body]
fn compile(source: &str) -> (r: Option<regex::Regex>)
    ensures
        r is Some == regex_compiles(source@),
        r matches Some(re) ==> regex_source(re) == source@,
        source@ == ISSUE_URL@ ==> r is Some,
{
    regex::Regex::new(source).ok()
}

/// `Regex::captures_iter`: the successive matches in a text with their groups. The
/// group of the whole match always takes part, the offsets of a group can always be used
/// to slice the text, and successive matches do not overlap. What [`ISSUE_URL`] finds in the
/// URL of an issue or PR follows from the documented syntax: `+` takes one or more of the
/// class before it and prefers more, and neither class holds the `/` behind its group.
#[verifier::external_body]
fn captures_all(re: &regex::Regex, text: &str) -> (r: Vec<Groups>)
    ensures
        captures_view(r@) == regex_captures(regex_source(*re), text@),
        forall|i: int| 0 <= i < r@.len() ==> groups_fit(#[trigger] r@[i], text.spec_bytes()),
        in_order(captures_view(r@)),
        reads_issue_urls(regex_source(*re), text@, captures_view(r@)),
{
    re.captures_iter(text).map(
        |c| c.iter().map(|m| m.map(|m| (m.start(), m.end()))).collect(),
    ).collect()
}

/// The matches of a source in a text; none where the source does not compile.
pub open spec fn matches_of(source: Seq<char>, text: Seq<char>) -> Seq<Seq<Option<(int, int)>>> {
    if regex_compiles(source) {
        regex_captures(source, text)
    } else {
        seq![]
    }
}

/// A compiled pattern.
pub struct Pattern {
    re: Option<regex::Regex>,
    source: Ghost<Seq<char>>,
}

impl Pattern {
    /// The source of the pattern.
    pub closed spec fn source(self) -> Seq<char> {
        self.source@
    }

    #[verifier::type_invariant]
    spec fn inv(self) -> bool {
        &&& self.re is Some == regex_compiles(self.source@)
        &&& self.re matches Some(re) ==> regex_source(re) == self.source@
        &&& self.source@ == ISSUE_URL@ ==> self.re is Some
    }

    /// Compiles a pattern. One that does not compile matches nothing.
    pub fn new(source: &str) -> (r: Self)
        ensures
            r.source() == source@,
    {
        Pattern { re: compile(source), source: Ghost(source@) }
    }

    /// The successive matches in `text`.
    pub fn find(&self, text: &str) -> (r: Vec<Groups>)
        ensures
            captures_view(r@) == matches_of(self.source(), text@),
            forall|i: int| 0 <= i < r@.len() ==> groups_fit(#[trigger] r@[i], text.spec_bytes()),
            in_order(captures_view(r@)),
            reads_issue_urls(self.source(), text@, captures_view(r@)),
    {
        proof {
            use_type_invariant(self);
        }
        match &self.re {
            Some(re) => captures_all(re, text),
            None => {
                let none: Vec<Groups> = Vec::new();
                assert(captures_view(none@) =~= Seq::<Seq<Option<(int, int)>>>::empty());
                none
            },
        }
    }
}

} // verus!
