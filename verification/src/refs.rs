//! GitHub references, naked URLs and inline math: finding them in a line of text.
use crate::marker::{copy_text, text_if_any};
use crate::pattern::{
    captures_view, groups_fit, groups_view, in_order, is_digits, is_owner, is_page, is_repo,
    issue_url, issue_url_groups, matches_of, reads_issue_urls, Groups, Pattern,
};
use crate::text::{
    ascii_space, byte_len, chars_of, decimal, decimal_string, has_at, is_ascii_space, is_digit,
    lemma_decimal, lemma_part_of_text, matches_at, number_of, parse_number, slice, str_eq,
};
use std::ops::Range;
use vstd::prelude::*;
use vstd::string::*;
use vstd::utf8::*;

verus! {

/// GitHub repository context for resolving relative references like #123.
#[derive(Debug, Clone, PartialEq, Eq)]
pub struct GitHubContext {
    pub owner: String,
    pub repo: String,
}

/// A detected GitHub reference.
#[derive(Debug, PartialEq, Eq, Hash)]
pub enum GitHubRef {
    /// Issue or PR: #123 or GH-123
    Issue { owner: String, repo: String, number: u64 },
    /// User mention: @username
    User { username: String },
    /// Commit SHA (7-40 hex chars)
    Commit { owner: String, repo: String, sha: String },
    /// Compare URL: owner/repo/compare/base...head
    Compare { owner: String, repo: String, base: String, head: String },
    /// File permalink: owner/repo/blob/sha/path#lines
    File { owner: String, repo: String, sha: String, path: String, lines: Option<String> },
}

/// A [`GitHubRef`] with its texts as characters.
pub enum RefView {
    Issue { owner: Seq<char>, repo: Seq<char>, number: u64 },
    User { username: Seq<char> },
    Commit { owner: Seq<char>, repo: Seq<char>, sha: Seq<char> },
    Compare { owner: Seq<char>, repo: Seq<char>, base: Seq<char>, head: Seq<char> },
    File {
        owner: Seq<char>,
        repo: Seq<char>,
        sha: Seq<char>,
        path: Seq<char>,
        lines: Option<Seq<char>>,
    },
}

impl View for GitHubRef {
    type V = RefView;

    open spec fn view(&self) -> RefView {
        match *self {
            GitHubRef::Issue { owner, repo, number } => RefView::Issue {
                owner: owner@,
                repo: repo@,
                number,
            },
            GitHubRef::User { username } => RefView::User { username: username@ },
            GitHubRef::Commit { owner, repo, sha } => RefView::Commit {
                owner: owner@,
                repo: repo@,
                sha: sha@,
            },
            GitHubRef::Compare { owner, repo, base, head } => RefView::Compare {
                owner: owner@,
                repo: repo@,
                base: base@,
                head: head@,
            },
            GitHubRef::File { owner, repo, sha, path, lines } => RefView::File {
                owner: owner@,
                repo: repo@,
                sha: sha@,
                path: path@,
                lines: text_if_any(lines),
            },
        }
    }
}

/// An optional reference with its texts as characters.
pub open spec fn ref_if_any(r: Option<GitHubRef>) -> Option<RefView> {
    match r {
        Some(r) => Some(r@),
        None => None,
    }
}

/// Owner and repository of a context.
pub open spec fn context_view(c: Option<&GitHubContext>) -> Option<(Seq<char>, Seq<char>)> {
    match c {
        Some(c) => Some((c.owner@, c.repo@)),
        None => None,
    }
}

impl Clone for GitHubRef {
    fn clone(&self) -> (r: Self)
        ensures
            r@ == self@,
    {
        match self {
            GitHubRef::Issue { owner, repo, number } => GitHubRef::Issue {
                owner: owner.clone(),
                repo: repo.clone(),
                number: *number,
            },
            GitHubRef::User { username } => GitHubRef::User { username: username.clone() },
            GitHubRef::Commit { owner, repo, sha } => GitHubRef::Commit {
                owner: owner.clone(),
                repo: repo.clone(),
                sha: sha.clone(),
            },
            GitHubRef::Compare { owner, repo, base, head } => GitHubRef::Compare {
                owner: owner.clone(),
                repo: repo.clone(),
                base: base.clone(),
                head: head.clone(),
            },
            GitHubRef::File { owner, repo, sha, path, lines } => GitHubRef::File {
                owner: owner.clone(),
                repo: repo.clone(),
                sha: sha.clone(),
                path: path.clone(),
                lines: copy_text(lines),
            },
        }
    }
}

/// Whether two optional texts are the same.
pub fn same_text(a: &Option<String>, b: &Option<String>) -> (r: bool)
    ensures
        r == (text_if_any(*a) == text_if_any(*b)),
{
    match (a, b) {
        (Some(a), Some(b)) => str_eq(a.as_str(), b.as_str()),
        (None, None) => true,
        _ => false,
    }
}

impl GitHubRef {
    /// Whether two references are the same.
    pub fn same(&self, other: &GitHubRef) -> (r: bool)
        ensures
            r == (self@ == other@),
    {
        match (self, other) {
            (
                GitHubRef::Issue { owner: a, repo: b, number: c },
                GitHubRef::Issue { owner: x, repo: y, number: z },
            ) => *c == *z && str_eq(a.as_str(), x.as_str()) && str_eq(b.as_str(), y.as_str()),
            (GitHubRef::User { username: a }, GitHubRef::User { username: x }) => str_eq(
                a.as_str(),
                x.as_str(),
            ),
            (
                GitHubRef::Commit { owner: a, repo: b, sha: c },
                GitHubRef::Commit { owner: x, repo: y, sha: z },
            ) => str_eq(a.as_str(), x.as_str()) && str_eq(b.as_str(), y.as_str()) && str_eq(
                c.as_str(),
                z.as_str(),
            ),
            (
                GitHubRef::Compare { owner: a, repo: b, base: c, head: d },
                GitHubRef::Compare { owner: x, repo: y, base: z, head: w },
            ) => str_eq(a.as_str(), x.as_str()) && str_eq(b.as_str(), y.as_str()) && str_eq(
                c.as_str(),
                z.as_str(),
            ) && str_eq(d.as_str(), w.as_str()),
            (
                GitHubRef::File { owner: a, repo: b, sha: c, path: d, lines: e },
                GitHubRef::File { owner: x, repo: y, sha: z, path: w, lines: v },
            ) => str_eq(a.as_str(), x.as_str()) && str_eq(b.as_str(), y.as_str()) && str_eq(
                c.as_str(),
                z.as_str(),
            ) && str_eq(d.as_str(), w.as_str()) && same_text(e, v),
            _ => false,
        }
    }
}

// ---------------------------------------------------------------------------
// URLs and short forms
// ---------------------------------------------------------------------------

/// `#` and the lines, where there are any.
pub open spec fn hash_lines(lines: Option<Seq<char>>) -> Seq<char> {
    match lines {
        Some(l) => "#"@ + l,
        None => seq![],
    }
}

/// `owner/repo`.
pub open spec fn slug(owner: Seq<char>, repo: Seq<char>) -> Seq<char> {
    owner + "/"@ + repo
}

/// The first seven bytes of a SHA, or all of it where it is shorter.
pub open spec fn short_sha(sha: Seq<char>) -> Seq<char> {
    let bytes = encode_utf8(sha);
    if bytes.len() <= 7 {
        sha
    } else {
        chars_of(bytes, 0, 7)
    }
}

/// A SHA can be cut after seven bytes.
pub open spec fn sha_cuts(sha: Seq<char>) -> bool {
    encode_utf8(sha).len() > 7 ==> is_char_boundary(encode_utf8(sha), 7)
}

impl RefView {
    /// The GitHub URL for this reference.
    pub open spec fn url(self) -> Seq<char> {
        match self {
            RefView::Issue { owner, repo, number } => "https://github.com/"@ + slug(owner, repo)
                + "/issues/"@ + decimal(number as nat),
            RefView::User { username } => "https://github.com/"@ + username,
            RefView::Commit { owner, repo, sha } => "https://github.com/"@ + slug(owner, repo)
                + "/commit/"@ + sha,
            RefView::Compare { owner, repo, base, head } => "https://github.com/"@ + slug(
                owner,
                repo,
            ) + "/compare/"@ + base + "..."@ + head,
            RefView::File { owner, repo, sha, path, lines } => "https://github.com/"@ + slug(
                owner,
                repo,
            ) + "/blob/"@ + sha + "/"@ + path + hash_lines(lines),
        }
    }

    /// `owner/repo`, or nothing where the context is that repository.
    pub open spec fn home(
        owner: Seq<char>,
        repo: Seq<char>,
        context: Option<(Seq<char>, Seq<char>)>,
    ) -> Seq<char> {
        if context == Some((owner, repo)) {
            seq![]
        } else {
            slug(owner, repo)
        }
    }

    /// The short display text for this reference.
    pub open spec fn short_display(self, context: Option<(Seq<char>, Seq<char>)>) -> Seq<char> {
        match self {
            RefView::Issue { owner, repo, number } => Self::home(owner, repo, context) + "#"@
                + decimal(number as nat),
            RefView::User { username } => "@"@ + username,
            RefView::Commit { owner, repo, sha } => Self::home(owner, repo, context) + "@"@
                + short_sha(sha),
            RefView::Compare { owner, repo, base, head } => Self::home(owner, repo, context)
                + "@"@ + base + "..."@ + head,
            RefView::File { owner, repo, sha, path, lines } => Self::home(owner, repo, context)
                + "@"@ + short_sha(sha) + ":"@ + path + hash_lines(lines),
        }
    }

    /// The SHA that is shortened, if there is one, can be cut after seven bytes.
    pub open spec fn cuts(self) -> bool {
        match self {
            RefView::Commit { sha, .. } => sha_cuts(sha),
            RefView::File { sha, .. } => sha_cuts(sha),
            _ => true,
        }
    }
}

/// `https://github.com/owner/repo`.
fn repo_url(owner: &String, repo: &String) -> (r: String)
    ensures
        r@ == "https://github.com/"@ + slug(owner@, repo@),
{
    let mut s = "https://github.com/".to_owned();
    s.append(owner.as_str());
    s.append("/");
    s.append(repo.as_str());
    assert(s@ =~= "https://github.com/"@ + slug(owner@, repo@));
    s
}

/// The first seven bytes of a SHA, or all of it where it is shorter.
fn cut_sha(sha: &String) -> (r: String)
    requires
        sha_cuts(sha@),
    ensures
        r@ == short_sha(sha@),
{
    if byte_len(sha.as_str()) <= 7 {
        sha.clone()
    } else {
        proof {
            encode_utf8_valid_utf8(sha@);
            is_char_boundary_start_end_of_seq(encode_utf8(sha@));
        }
        slice(sha.as_str(), 0, 7).to_owned()
    }
}

/// `owner/repo`, or nothing where the context is that repository.
fn home_of(owner: &String, repo: &String, context: Option<&GitHubContext>) -> (r: String)
    ensures
        r@ == RefView::home(owner@, repo@, context_view(context)),
{
    let same_repo = match context {
        Some(ctx) => str_eq(ctx.owner.as_str(), owner.as_str()) && str_eq(
            ctx.repo.as_str(),
            repo.as_str(),
        ),
        None => false,
    };
    if same_repo {
        String::new()
    } else {
        let mut s = owner.clone();
        s.append("/");
        s.append(repo.as_str());
        s
    }
}

impl GitHubRef {
    /// Generate the GitHub URL for this reference.
    pub fn url(&self) -> (r: String)
        ensures
            r@ == self@.url(),
    {
        match self {
            GitHubRef::Issue { owner, repo, number } => {
                let mut s = repo_url(owner, repo);
                s.append("/issues/");
                s.append(decimal_string(*number).as_str());
                s
            },
            GitHubRef::User { username } => {
                let mut s = "https://github.com/".to_owned();
                s.append(username.as_str());
                s
            },
            GitHubRef::Commit { owner, repo, sha } => {
                let mut s = repo_url(owner, repo);
                s.append("/commit/");
                s.append(sha.as_str());
                s
            },
            GitHubRef::Compare { owner, repo, base, head } => {
                let mut s = repo_url(owner, repo);
                s.append("/compare/");
                s.append(base.as_str());
                s.append("...");
                s.append(head.as_str());
                s
            },
            GitHubRef::File { owner, repo, sha, path, lines } => {
                let mut s = repo_url(owner, repo);
                s.append("/blob/");
                s.append(sha.as_str());
                s.append("/");
                s.append(path.as_str());
                match lines {
                    Some(l) => {
                        let ghost before = s@;
                        s.append("#");
                        s.append(l.as_str());
                        assert(s@ =~= before + hash_lines(text_if_any(*lines)));
                    },
                    None => {
                        assert(s@ + hash_lines(text_if_any(*lines)) =~= s@);
                    },
                }
                s
            },
        }
    }

    /// Generate the short display text for this reference (used for URL shortening).
    /// If `context` is provided and the ref is from the same repo, omits the `owner/repo` prefix.
    pub fn short_display(&self, context: Option<&GitHubContext>) -> (r: String)
        requires
            self@.cuts(),
        ensures
            r@ == self@.short_display(context_view(context)),
    {
        match self {
            GitHubRef::Issue { owner, repo, number } => {
                let mut s = home_of(owner, repo, context);
                s.append("#");
                s.append(decimal_string(*number).as_str());
                s
            },
            GitHubRef::User { username } => {
                let mut s = "@".to_owned();
                s.append(username.as_str());
                s
            },
            GitHubRef::Commit { owner, repo, sha } => {
                let mut s = home_of(owner, repo, context);
                s.append("@");
                s.append(cut_sha(sha).as_str());
                s
            },
            GitHubRef::Compare { owner, repo, base, head } => {
                let mut s = home_of(owner, repo, context);
                s.append("@");
                s.append(base.as_str());
                s.append("...");
                s.append(head.as_str());
                s
            },
            GitHubRef::File { owner, repo, sha, path, lines } => {
                let mut s = home_of(owner, repo, context);
                s.append("@");
                s.append(cut_sha(sha).as_str());
                s.append(":");
                s.append(path.as_str());
                match lines {
                    Some(l) => {
                        let ghost before = s@;
                        s.append("#");
                        s.append(l.as_str());
                        assert(s@ =~= before + hash_lines(text_if_any(*lines)));
                    },
                    None => {
                        assert(s@ + hash_lines(text_if_any(*lines)) =~= s@);
                    },
                }
                s
            },
        }
    }
}

// ---------------------------------------------------------------------------
// References out of URLs
// ---------------------------------------------------------------------------

/// Issue or PR URL: owner, repo, number.
pub const ISSUE_URL: &'static str =
    "https?://github\\.com/([a-zA-Z0-9-]+)/([a-zA-Z0-9._-]+)/(?:issues|pull)/(\\d+)";

/// Compare URL: owner, repo, base, head. The base can contain dots but not the `...`
/// separator.
pub const COMPARE_URL: &'static str =
    "https?://github\\.com/([a-zA-Z0-9-]+)/([a-zA-Z0-9._-]+)/compare/(.+?)\\.\\.\\.([^\\s]+)";

/// File permalink: owner, repo, sha, path, lines.
pub const FILE_URL: &'static str =
    "https?://github\\.com/([a-zA-Z0-9-]+)/([a-zA-Z0-9._-]+)/blob/([0-9a-f]+)/([^#\\s]+)(?:#(L\\d+(?:-L\\d+)?))?";

/// An `http` or `https` URL with a domain of at least two labels, an optional port and
/// an optional path.
pub const NAKED_URL: &'static str =
    "https?://[a-zA-Z0-9](?:[a-zA-Z0-9-]*[a-zA-Z0-9])?(?:\\.[a-zA-Z0-9](?:[a-zA-Z0-9-]*[a-zA-Z0-9])?)+(?::\\d+)?(?:/[^\\s<>\\[\\]()]*)?";

/// The text of group `i`, where it takes part in the match.
pub open spec fn group_text(g: Seq<Option<(int, int)>>, i: int, bytes: Seq<u8>) -> Option<
    Seq<char>,
> {
    if 0 <= i < g.len() && g[i] is Some {
        Some(chars_of(bytes, g[i]->Some_0.0, g[i]->Some_0.1))
    } else {
        None
    }
}

/// The number that group `i` writes in ASCII digits, where it is a `u64`.
pub open spec fn group_number(g: Seq<Option<(int, int)>>, i: int, bytes: Seq<u8>) -> Option<u64> {
    if 0 <= i < g.len() && g[i] is Some {
        let text = bytes.subrange(g[i]->Some_0.0, g[i]->Some_0.1);
        if text.len() > 0 && (forall|k: int| 0 <= k < text.len() ==> is_digit(#[trigger] text[k]))
            && number_of(text) <= u64::MAX {
            Some(number_of(text) as u64)
        } else {
            None
        }
    } else {
        None
    }
}

/// The text of group `i`, where it takes part in the match.
fn text_of_group(g: &Groups, i: usize, text: &str) -> (r: Option<String>)
    requires
        groups_fit(*g, text.spec_bytes()),
    ensures
        text_if_any(r) == group_text(groups_view(*g), i as int, text.spec_bytes()),
{
    if i < g.len() {
        match g[i] {
            Some((a, b)) => {
                assert(groups_view(*g)[i as int] == Some((a as int, b as int)));
                Some(slice(text, a, b).to_owned())
            },
            None => None,
        }
    } else {
        None
    }
}

/// The number that group `i` writes, where it is a `u64`.
fn number_of_group(g: &Groups, i: usize, text: &str) -> (r: Option<u64>)
    requires
        groups_fit(*g, text.spec_bytes()),
    ensures
        r == group_number(groups_view(*g), i as int, text.spec_bytes()),
{
    if i >= g.len() {
        return None;
    }
    match g[i] {
        Some((a, b)) => {
            assert(groups_view(*g)[i as int] == Some((a as int, b as int)));
            let bytes = text.as_bytes();
            let ghost part = bytes@.subrange(a as int, b as int);
            let mut k: usize = a;
            while k < b
                invariant
                    i < g@.len(),
                    groups_view(*g)[i as int] == Some((a as int, b as int)),
                    bytes@ == text.spec_bytes(),
                    a <= k <= b <= bytes@.len(),
                    part == bytes@.subrange(a as int, b as int),
                    forall|x: int| a <= x < k ==> is_digit(#[trigger] bytes@[x]),
                decreases b - k,
            {
                if !(48 <= bytes[k] && bytes[k] <= 57) {
                    assert(part[k - a] == bytes@[k as int]);
                    assert(!is_digit(part[k - a]));
                    return None;
                }
                k += 1;
            }
            assert forall|x: int| 0 <= x < part.len() implies is_digit(#[trigger] part[x]) by {
                assert(is_digit(bytes@[a + x]));
            }
            parse_number(bytes, a, b, u64::MAX)
        },
        None => None,
    }
}

/// The reference that the groups of an issue URL stand for.
pub open spec fn issue_url_ref(g: Seq<Option<(int, int)>>, bytes: Seq<u8>) -> Option<RefView> {
    match (group_text(g, 1, bytes), group_text(g, 2, bytes), group_number(g, 3, bytes)) {
        (Some(owner), Some(repo), Some(number)) => Some(RefView::Issue { owner, repo, number }),
        _ => None,
    }
}

/// The reference that the groups of a compare URL stand for.
pub open spec fn compare_url_ref(g: Seq<Option<(int, int)>>, bytes: Seq<u8>) -> Option<RefView> {
    match (
        group_text(g, 1, bytes),
        group_text(g, 2, bytes),
        group_text(g, 3, bytes),
        group_text(g, 4, bytes),
    ) {
        (Some(owner), Some(repo), Some(base), Some(head)) => Some(
            RefView::Compare { owner, repo, base, head },
        ),
        _ => None,
    }
}

/// The reference that the groups of a file permalink stand for.
pub open spec fn file_url_ref(g: Seq<Option<(int, int)>>, bytes: Seq<u8>) -> Option<RefView> {
    match (
        group_text(g, 1, bytes),
        group_text(g, 2, bytes),
        group_text(g, 3, bytes),
        group_text(g, 4, bytes),
    ) {
        (Some(owner), Some(repo), Some(sha), Some(path)) => Some(
            RefView::File { owner, repo, sha, path, lines: group_text(g, 5, bytes) },
        ),
        _ => None,
    }
}

/// The reference that a URL stands for, given what the three URL patterns find in it:
/// the first match of the first pattern that matches decides.
pub open spec fn url_ref(
    issues: Seq<Seq<Option<(int, int)>>>,
    compares: Seq<Seq<Option<(int, int)>>>,
    files: Seq<Seq<Option<(int, int)>>>,
    bytes: Seq<u8>,
) -> Option<RefView> {
    if issues.len() > 0 {
        issue_url_ref(issues[0], bytes)
    } else if compares.len() > 0 {
        compare_url_ref(compares[0], bytes)
    } else if files.len() > 0 {
        file_url_ref(files[0], bytes)
    } else {
        None
    }
}

/// The reference that a URL stands for.
pub open spec fn ref_of_url(url: Seq<char>) -> Option<RefView> {
    url_ref(
        matches_of(ISSUE_URL@, url),
        matches_of(COMPARE_URL@, url),
        matches_of(FILE_URL@, url),
        encode_utf8(url),
    )
}

/// What is read out of the URL of an issue or PR is that issue or PR: what is read out of
/// the URL that an issue reference writes is that reference.
pub open spec fn reads_issues_back(url: Seq<char>, r: Option<RefView>) -> bool {
    &&& forall|owner: Seq<char>, repo: Seq<char>, page: Seq<char>, number: u64|
        is_owner(owner) && is_repo(repo) && is_page(page) && url == #[trigger] issue_url(
            owner,
            repo,
            page,
            decimal(number as nat),
        ) ==> r == Some(RefView::Issue { owner, repo, number })
    &&& forall|x: RefView|
        url == (#[trigger] x.url()) && (x matches RefView::Issue { owner, repo, .. } && is_owner(
            owner,
        ) && is_repo(repo)) ==> r == Some(x)
}

/// The URL of an issue or PR, cut as [`ISSUE_URL`] cuts it, stands for it.
pub proof fn law_issue_urls_read_back(
    url: Seq<char>,
    issues: Seq<Seq<Option<(int, int)>>>,
    compares: Seq<Seq<Option<(int, int)>>>,
    files: Seq<Seq<Option<(int, int)>>>,
)
    requires
        reads_issue_urls(ISSUE_URL@, url, issues),
    ensures
        reads_issues_back(url, url_ref(issues, compares, files, encode_utf8(url))),
{
    let r = url_ref(issues, compares, files, encode_utf8(url));
    assert forall|owner: Seq<char>, repo: Seq<char>, page: Seq<char>, number: u64|
        is_owner(owner) && is_repo(repo) && is_page(page) && url == #[trigger] issue_url(
            owner,
            repo,
            page,
            decimal(number as nat),
        ) implies r == Some(RefView::Issue { owner, repo, number }) by {
        let digits = decimal(number as nat);
        lemma_decimal(number as nat);
        assert(is_digits(digits));
        assert(issues == seq![issue_url_groups(owner, repo, page, digits)]);
        lemma_issue_groups(owner, repo, page, number);
    }
    assert forall|x: RefView|
        url == (#[trigger] x.url()) && (x matches RefView::Issue { owner, repo, .. } && is_owner(
            owner,
        ) && is_repo(repo)) implies r == Some(x) by {
        let (owner, repo, number) = match x {
            RefView::Issue { owner, repo, number } => (owner, repo, number),
            _ => (seq![], seq![], 0u64),
        };
        assert(url == issue_url(owner, repo, "/issues/"@, decimal(number as nat)));
    }
}

proof fn lemma_issue_groups(owner: Seq<char>, repo: Seq<char>, page: Seq<char>, number: u64)
    ensures
        ({
            let digits = decimal(number as nat);
            issue_url_ref(
                issue_url_groups(owner, repo, page, digits),
                encode_utf8(issue_url(owner, repo, page, digits)),
            ) == Some(RefView::Issue { owner, repo, number })
        }),
{
    let digits = decimal(number as nat);
    let site = "https://github.com/"@;
    let url = issue_url(owner, repo, page, digits);
    let g = issue_url_groups(owner, repo, page, digits);
    let bytes = encode_utf8(url);
    let rest = "/"@ + repo + page + digits;
    assert(url =~= site + owner + rest);
    lemma_part_of_text(site, owner, rest);
    assert(group_text(g, 1, bytes) == Some(owner));
    assert(url =~= site + (owner + "/"@) + repo + (page + digits));
    lemma_part_of_text(site + (owner + "/"@), repo, page + digits);
    assert(group_text(g, 2, bytes) == Some(repo));
    let front = site + (owner + "/"@ + repo) + page;
    assert(url =~= front + digits + Seq::<char>::empty());
    lemma_part_of_text(front, digits, seq![]);
    lemma_decimal(number as nat);
    assert(group_number(g, 3, bytes) == Some(number));
}

/// The reference that a URL stands for, given what the three URL patterns find in it.
pub fn ref_from_matches(
    url: &str,
    issues: &Vec<Groups>,
    compares: &Vec<Groups>,
    files: &Vec<Groups>,
) -> (r: Option<GitHubRef>)
    requires
        forall|i: int| 0 <= i < issues@.len() ==> groups_fit(#[trigger] issues@[i], url.spec_bytes()),
        forall|i: int|
            0 <= i < compares@.len() ==> groups_fit(#[trigger] compares@[i], url.spec_bytes()),
        forall|i: int| 0 <= i < files@.len() ==> groups_fit(#[trigger] files@[i], url.spec_bytes()),
    ensures
        ref_if_any(r) == url_ref(
            captures_view(issues@),
            captures_view(compares@),
            captures_view(files@),
            url.spec_bytes(),
        ),
{
    if issues.len() > 0 {
        let g = &issues[0];
        assert(captures_view(issues@)[0] == groups_view(*g));
        match (text_of_group(g, 1, url), text_of_group(g, 2, url), number_of_group(g, 3, url)) {
            (Some(owner), Some(repo), Some(number)) => Some(
                GitHubRef::Issue { owner, repo, number },
            ),
            _ => None,
        }
    } else if compares.len() > 0 {
        let g = &compares[0];
        assert(captures_view(compares@)[0] == groups_view(*g));
        match (
            text_of_group(g, 1, url),
            text_of_group(g, 2, url),
            text_of_group(g, 3, url),
            text_of_group(g, 4, url),
        ) {
            (Some(owner), Some(repo), Some(base), Some(head)) => Some(
                GitHubRef::Compare { owner, repo, base, head },
            ),
            _ => None,
        }
    } else if files.len() > 0 {
        let g = &files[0];
        assert(captures_view(files@)[0] == groups_view(*g));
        match (
            text_of_group(g, 1, url),
            text_of_group(g, 2, url),
            text_of_group(g, 3, url),
            text_of_group(g, 4, url),
        ) {
            (Some(owner), Some(repo), Some(sha), Some(path)) => Some(
                GitHubRef::File { owner, repo, sha, path, lines: text_of_group(g, 5, url) },
            ),
            _ => None,
        }
    } else {
        None
    }
}

/// The compiled URL patterns.
pub struct UrlPatterns {
    naked: Pattern,
    issue: Pattern,
    compare: Pattern,
    file: Pattern,
}

/// The sources of the URL patterns.
pub struct UrlSources {
    pub naked: Seq<char>,
    pub issue: Seq<char>,
    pub compare: Seq<char>,
    pub file: Seq<char>,
}

/// What the URL patterns are compiled from.
pub open spec fn url_sources() -> UrlSources {
    UrlSources {
        naked: NAKED_URL@,
        issue: ISSUE_URL@,
        compare: COMPARE_URL@,
        file: FILE_URL@,
    }
}

impl UrlPatterns {
    /// What each pattern was compiled from.
    pub closed spec fn sources(self) -> UrlSources {
        UrlSources {
            naked: self.naked.source(),
            issue: self.issue.source(),
            compare: self.compare.source(),
            file: self.file.source(),
        }
    }

    #[verifier::type_invariant]
    spec fn inv(self) -> bool {
        self.sources() == url_sources()
    }

    /// Compiles the patterns.
    pub fn new() -> (r: Self)
        ensures
            r.sources() == url_sources(),
    {
        UrlPatterns {
            naked: Pattern::new(NAKED_URL),
            issue: Pattern::new(ISSUE_URL),
            compare: Pattern::new(COMPARE_URL),
            file: Pattern::new(FILE_URL),
        }
    }

    /// As [`GitHubRef::from_url`].
    pub fn reference(&self, url: &str) -> (r: Option<GitHubRef>)
        ensures
            ref_if_any(r) == ref_of_url(url@),
            reads_issues_back(url@, ref_if_any(r)),
    {
        proof {
            use_type_invariant(self);
        }
        let issues = self.issue.find(url);
        let compares = self.compare.find(url);
        let files = self.file.find(url);
        proof {
            law_issue_urls_read_back(
                url@,
                captures_view(issues@),
                captures_view(compares@),
                captures_view(files@),
            );
        }
        ref_from_matches(url, &issues, &compares, &files)
    }

    /// As [`detect_naked_urls`].
    pub fn detect_naked_urls(
        &self,
        line: &str,
        line_byte_offset: usize,
        code_ranges: &[Range<usize>],
        link_ranges: &[Range<usize>],
    ) -> (r: Vec<NakedUrl>)
        requires
            line_byte_offset + line.spec_bytes().len() <= usize::MAX,
        ensures
            r@.map_values(|u: NakedUrl| u@) == naked_urls(
                matches_of(NAKED_URL@, line@),
                line.spec_bytes(),
                line_byte_offset as int,
                code_ranges@,
                link_ranges@,
            ),
            urls_hold(
                r@.map_values(|u: NakedUrl| u@),
                line.spec_bytes(),
                line_byte_offset as int,
                code_ranges@,
                link_ranges@,
            ),
    {
        proof {
            use_type_invariant(self);
        }
        let found = self.naked.find(line);
        proof {
            let caps = captures_view(found@);
            assert forall|i: int| 0 <= i < caps.len() implies (#[trigger] caps[i]).len() > 0
                && caps[i][0] is Some && 0 <= caps[i][0]->Some_0.0 <= caps[i][0]->Some_0.1
                <= line.spec_bytes().len() by {
                assert(groups_fit(found@[i], line.spec_bytes()));
                assert(found@[i]@[0] is Some);
            }
            law_naked_urls(
                caps,
                line.spec_bytes(),
                line_byte_offset as int,
                code_ranges@,
                link_ranges@,
            );
        }
        self.naked_urls_at(line, line_byte_offset, code_ranges, link_ranges, &found)
    }

    /// The naked URLs of a line, given what the URL pattern finds in it.
    pub fn naked_urls_at(
        &self,
        line: &str,
        line_byte_offset: usize,
        code_ranges: &[Range<usize>],
        link_ranges: &[Range<usize>],
        found: &Vec<Groups>,
    ) -> (r: Vec<NakedUrl>)
        requires
            line_byte_offset + line.spec_bytes().len() <= usize::MAX,
            forall|i: int|
                0 <= i < found@.len() ==> groups_fit(#[trigger] found@[i], line.spec_bytes()),
        ensures
            r@.map_values(|u: NakedUrl| u@) == naked_urls(
                captures_view(found@),
                line.spec_bytes(),
                line_byte_offset as int,
                code_ranges@,
                link_ranges@,
            ),
    {
        let ghost caps = captures_view(found@);
        let ghost bytes = line.spec_bytes();
        let mut urls: Vec<NakedUrl> = Vec::new();
        let mut i: usize = 0;
        assert(caps.subrange(0, 0) =~= Seq::<Seq<Option<(int, int)>>>::empty());
        assert(urls@.map_values(|u: NakedUrl| u@) =~= Seq::<NakedUrlView>::empty());
        while i < found.len()
            invariant
                i <= found@.len(),
                caps == captures_view(found@),
                bytes == line.spec_bytes(),
                line_byte_offset + bytes.len() <= usize::MAX,
                forall|k: int| 0 <= k < found@.len() ==> groups_fit(#[trigger] found@[k], bytes),
                urls@.map_values(|u: NakedUrl| u@) == naked_urls(
                    caps.subrange(0, i as int),
                    bytes,
                    line_byte_offset as int,
                    code_ranges@,
                    link_ranges@,
                ),
            decreases found@.len() - i,
        {
            let g = &found[i];
            let (start, end) = g[0].unwrap();
            proof {
                let upto = caps.subrange(0, i + 1);
                assert(upto.drop_last() =~= caps.subrange(0, i as int));
                assert(upto.last() == groups_view(*g));
                assert(groups_view(*g)[0] == Some((start as int, end as int)));
            }
            let abs_start = line_byte_offset + start;
            if !(in_any(code_ranges, abs_start) || in_any(link_ranges, abs_start)) && web_url(
                line.as_bytes(),
                start,
                end,
            ) {
                let url = slice(line, start, end).to_owned();
                let github_ref = self.reference(url.as_str());
                let u = NakedUrl {
                    url,
                    byte_range: abs_start..line_byte_offset + end,
                    github_ref,
                };
                let ghost before = urls@;
                urls.push(u);
                assert(urls@.map_values(|u: NakedUrl| u@) =~= before.map_values(
                    |u: NakedUrl| u@,
                ).push(u@));
            }
            i += 1;
        }
        assert(caps.subrange(0, i as int) =~= caps);
        urls
    }
}

impl GitHubRef {
    /// Try to parse a GitHub URL into a GitHubRef.
    /// Returns None if the URL is not a recognized GitHub URL pattern, or its issue
    /// number does not fit.
    pub fn from_url(url: &str) -> (r: Option<Self>)
        ensures
            ref_if_any(r) == ref_of_url(url@),
            reads_issues_back(url@, ref_if_any(r)),
    {
        UrlPatterns::new().reference(url)
    }
}

// ---------------------------------------------------------------------------
// Ranges
// ---------------------------------------------------------------------------

/// `pos` falls inside one of `ranges`.
pub open spec fn inside_any(ranges: Seq<Range<usize>>, pos: int) -> bool {
    exists|i: int|
        0 <= i < ranges.len() && (#[trigger] ranges[i]).start <= pos && pos < ranges[i].end
}

/// Whether `pos` falls inside any of `ranges`. Shared by the inline detectors so that
/// "skip matches inside code spans / markdown links" is one predicate, not re-inlined.
pub fn in_any(ranges: &[Range<usize>], pos: usize) -> (r: bool)
    ensures
        r == inside_any(ranges@, pos as int),
{
    let mut i: usize = 0;
    while i < ranges.len()
        invariant
            i <= ranges@.len(),
            forall|k: int|
                0 <= k < i ==> !((#[trigger] ranges@[k]).start <= pos && pos < ranges@[k].end),
        decreases ranges@.len() - i,
    {
        if ranges[i].start <= pos && pos < ranges[i].end {
            return true;
        }
        i += 1;
    }
    false
}

// ---------------------------------------------------------------------------
// Naked URLs
// ---------------------------------------------------------------------------

/// A naked URL detected in text (not inside []() markdown link syntax).
#[derive(Debug, Clone)]
pub struct NakedUrl {
    /// The full URL text.
    pub url: String,
    /// Byte range in the rope where this URL was found.
    pub byte_range: Range<usize>,
    /// If this is a GitHub URL, the parsed reference.
    pub github_ref: Option<GitHubRef>,
}

/// What a [`NakedUrl`] says.
pub struct NakedUrlView {
    pub url: Seq<char>,
    pub start: int,
    pub end: int,
    pub github_ref: Option<RefView>,
}

impl View for NakedUrl {
    type V = NakedUrlView;

    open spec fn view(&self) -> NakedUrlView {
        NakedUrlView {
            url: self.url@,
            start: self.byte_range.start as int,
            end: self.byte_range.end as int,
            github_ref: ref_if_any(self.github_ref),
        }
    }
}

/// Where the host of the URL at byte `s` starts, behind `http://` or `https://`.
pub open spec fn host_start(bytes: Seq<u8>, s: int) -> Option<int> {
    let plain = encode_utf8("http://"@);
    let secure = encode_utf8("https://"@);
    if matches_at(bytes, secure, s) {
        Some((s + secure.len()) as int)
    } else if matches_at(bytes, plain, s) {
        Some((s + plain.len()) as int)
    } else {
        None
    }
}

/// Byte `k` is a dot, and no slash or colon stands between `a` and it.
pub open spec fn dot_at(bytes: Seq<u8>, a: int, k: int) -> bool {
    bytes[k] == 0x2e && forall|j: int|
        a <= j < k ==> #[trigger] bytes[j] != 0x2f && bytes[j] != 0x3a
}

/// The bytes `s..e` are a URL of the web: `http://` or `https://`, and a host with a dot.
pub open spec fn is_web_url(bytes: Seq<u8>, s: int, e: int) -> bool {
    match host_start(bytes, s) {
        Some(a) => exists|k: int| a <= k < e && #[trigger] dot_at(bytes, a, k),
        None => false,
    }
}

/// Whether the bytes `s..e` are a URL of the web.
fn web_url(bytes: &[u8], s: usize, e: usize) -> (r: bool)
    requires
        s <= e <= bytes@.len(),
    ensures
        r == is_web_url(bytes@, s as int, e as int),
{
    let plain = "http://".as_bytes();
    let secure = "https://".as_bytes();
    let n = bytes.len();
    let a = if has_at(bytes, secure, s) {
        s + secure.len()
    } else if has_at(bytes, plain, s) {
        s + plain.len()
    } else {
        return false;
    };
    let mut k: usize = a;
    while k < e
        invariant
            e <= bytes@.len(),
            a <= k,
            host_start(bytes@, s as int) == Some(a as int),
            forall|j: int|
                a <= j < k ==> #[trigger] bytes@[j] != 0x2f && bytes@[j] != 0x3a && bytes@[j]
                    != 0x2e,
        decreases e - k,
    {
        if bytes[k] == 0x2e {
            proof {
                let host = host_start(bytes@, s as int)->Some_0;
                assert(dot_at(bytes@, host, k as int));
                assert(exists|x: int| host <= x < e && #[trigger] dot_at(bytes@, host, x));
            }
            return true;
        }
        if bytes[k] == 0x2f || bytes[k] == 0x3a {
            assert forall|x: int| a <= x < e implies !(#[trigger] dot_at(bytes@, a as int, x)) by {
                if x > k {
                    assert(bytes@[k as int] == 0x2f || bytes@[k as int] == 0x3a);
                }
            }
            return false;
        }
        k += 1;
    }
    false
}

/// The naked URLs among some matches: those of the web that start outside code and links,
/// with the reference that each stands for.
pub open spec fn naked_urls(
    caps: Seq<Seq<Option<(int, int)>>>,
    bytes: Seq<u8>,
    offset: int,
    code: Seq<Range<usize>>,
    links: Seq<Range<usize>>,
) -> Seq<NakedUrlView>
    decreases caps.len(),
{
    if caps.len() == 0 {
        seq![]
    } else {
        let rest = naked_urls(caps.drop_last(), bytes, offset, code, links);
        let m = caps.last()[0]->Some_0;
        if inside_any(code, offset + m.0) || inside_any(links, offset + m.0) || !is_web_url(
            bytes,
            m.0,
            m.1,
        ) {
            rest
        } else {
            let url = chars_of(bytes, m.0, m.1);
            rest.push(
                NakedUrlView {
                    url,
                    start: offset + m.0,
                    end: offset + m.1,
                    github_ref: ref_of_url(url),
                },
            )
        }
    }
}

/// Detect naked URLs in a single line of text.
///
/// Returns URLs that are not inside markdown link syntax or code spans.
/// For GitHub URLs, also parses the reference for potential shortening.
///
/// - `line`: the line text to scan
/// - `line_byte_offset`: byte offset of this line in the buffer (for absolute ranges)
/// - `code_ranges`: absolute byte ranges of code spans to skip
/// - `link_ranges`: absolute byte ranges of markdown links to skip
pub fn detect_naked_urls(
    line: &str,
    line_byte_offset: usize,
    code_ranges: &[Range<usize>],
    link_ranges: &[Range<usize>],
) -> (r: Vec<NakedUrl>)
    requires
        line_byte_offset + line.spec_bytes().len() <= usize::MAX,
    ensures
        r@.map_values(|u: NakedUrl| u@) == naked_urls(
            matches_of(NAKED_URL@, line@),
            line.spec_bytes(),
            line_byte_offset as int,
            code_ranges@,
            link_ranges@,
        ),
        urls_hold(
            r@.map_values(|u: NakedUrl| u@),
            line.spec_bytes(),
            line_byte_offset as int,
            code_ranges@,
            link_ranges@,
        ),
{
    UrlPatterns::new().detect_naked_urls(line, line_byte_offset, code_ranges, link_ranges)
}

/// What holds of the naked URLs of a line: each is a URL of the web, is the text of its
/// range in the line, starts outside code and links, and carries the reference that it
/// stands for; and they follow one another.
pub open spec fn urls_hold(
    us: Seq<NakedUrlView>,
    bytes: Seq<u8>,
    offset: int,
    code: Seq<Range<usize>>,
    links: Seq<Range<usize>>,
) -> bool {
    &&& forall|i: int|
        0 <= i < us.len() ==> {
            let u = #[trigger] us[i];
            &&& offset <= u.start <= u.end <= offset + bytes.len()
            &&& u.url == chars_of(bytes, u.start - offset, u.end - offset)
            &&& is_web_url(bytes, u.start - offset, u.end - offset)
            &&& !inside_any(code, u.start) && !inside_any(links, u.start)
            &&& u.github_ref == ref_of_url(u.url)
        }
    &&& forall|i: int, j: int|
        0 <= i < j < us.len() ==> (#[trigger] us[i]).end <= (#[trigger] us[j]).start
}

/// The naked URLs of a line ascend and are disjoint, are URLs of the web and texts of the
/// line, start outside code and links, and carry their references.
pub proof fn law_naked_urls(
    caps: Seq<Seq<Option<(int, int)>>>,
    bytes: Seq<u8>,
    offset: int,
    code: Seq<Range<usize>>,
    links: Seq<Range<usize>>,
)
    requires
        in_order(caps),
        forall|i: int|
            0 <= i < caps.len() ==> (#[trigger] caps[i]).len() > 0 && caps[i][0] is Some && 0
                <= caps[i][0]->Some_0.0 <= caps[i][0]->Some_0.1 <= bytes.len(),
    ensures
        urls_hold(naked_urls(caps, bytes, offset, code, links), bytes, offset, code, links),
        forall|i: int|
            0 <= i < naked_urls(caps, bytes, offset, code, links).len() ==> caps.len() > 0 && (
            #[trigger] naked_urls(caps, bytes, offset, code, links)[i]).end <= offset
                + caps.last()[0]->Some_0.1,
    decreases caps.len(),
{
    if caps.len() > 0 {
        let init = caps.drop_last();
        law_naked_urls(init, bytes, offset, code, links);
        let rest = naked_urls(init, bytes, offset, code, links);
        let all = naked_urls(caps, bytes, offset, code, links);
        let m = caps.last()[0]->Some_0;
        assert(caps.last() == caps[caps.len() - 1]);
        if init.len() > 0 {
            assert(init.last() == caps[init.len() - 1]);
        }
        assert forall|i: int| 0 <= i < rest.len() implies (#[trigger] rest[i]).end <= offset
            + m.0 by {}
        assert forall|i: int| 0 <= i < all.len() implies (#[trigger] all[i]).end <= offset
            + m.1 by {
            if i < rest.len() {
                assert(all[i] == rest[i]);
            }
        }
        assert forall|i: int, j: int| 0 <= i < j < all.len() implies (#[trigger] all[i]).end <= (
        #[trigger] all[j]).start by {
            assert(all[i] == rest[i]);
            if j < rest.len() {
                assert(all[j] == rest[j]);
            }
        }
        assert(urls_hold(all, bytes, offset, code, links)) by {
            assert forall|i: int| 0 <= i < all.len() implies {
                let u = #[trigger] all[i];
                &&& offset <= u.start <= u.end <= offset + bytes.len()
                &&& u.url == chars_of(bytes, u.start - offset, u.end - offset)
                &&& is_web_url(bytes, u.start - offset, u.end - offset)
                &&& !inside_any(code, u.start) && !inside_any(links, u.start)
                &&& u.github_ref == ref_of_url(u.url)
            } by {
                if i < rest.len() {
                    assert(all[i] == rest[i]);
                }
            }
        }
    }
}

// ---------------------------------------------------------------------------
// References in a line
// ---------------------------------------------------------------------------

/// `#` and a number.
pub const ISSUE_REF: &'static str = "#(\\d{1,10})";

/// `GH-` and a number.
pub const GH_ISSUE_REF: &'static str = "(?i)GH-(\\d{1,10})";

/// `@` and a user name, and what may follow it; the mention without that is group 1.
pub const USER_REF: &'static str =
    "(@([a-zA-Z0-9](?:[a-zA-Z0-9-]*[a-zA-Z0-9])?))(?:[^a-zA-Z0-9/]|$)";

/// `owner/repo#123`, and what may follow it; the reference without that is group 1.
pub const CROSS_ISSUE_REF: &'static str =
    "(([a-zA-Z0-9-]+)/([a-zA-Z0-9._-]+)#(\\d{1,10}))(?:[^a-zA-Z0-9]|$)";

/// Seven to forty hex digits.
pub const SHA_REF: &'static str = "\\b([0-9a-f]{7,40})\\b";

/// `owner/repo@sha`, and what may follow it; the reference without that is group 1.
pub const CROSS_COMMIT_REF: &'static str =
    "(([a-zA-Z0-9-]+)/([a-zA-Z0-9._-]+)@([0-9a-f]{7,40}))(?:[^a-zA-Z0-9]|$)";

/// A raw match from detection (before validation).
#[derive(Debug, Clone)]
pub struct RawGitHubMatch {
    /// The reference type and details.
    pub reference: GitHubRef,
    /// Byte range in the rope where this match was found.
    pub byte_range: Range<usize>,
}

/// What a [`RawGitHubMatch`] says.
pub struct MatchView {
    pub reference: RefView,
    pub start: int,
    pub end: int,
}

impl View for RawGitHubMatch {
    type V = MatchView;

    open spec fn view(&self) -> MatchView {
        MatchView {
            reference: self.reference@,
            start: self.byte_range.start as int,
            end: self.byte_range.end as int,
        }
    }
}

/// What some matches say.
pub open spec fn matches_view(ms: Seq<RawGitHubMatch>) -> Seq<MatchView> {
    ms.map_values(|m: RawGitHubMatch| m@)
}

/// The passes that look for references in a line, in their order.
#[derive(Debug, Clone, Copy, PartialEq, Eq, Structural)]
pub enum RefPass {
    CrossIssue,
    CrossCommit,
    User,
    Issue,
    Sha,
}

impl RefPass {
    /// The group that is the reference itself.
    pub open spec fn whole(self) -> int {
        if self == RefPass::Issue {
            0
        } else {
            1
        }
    }

    /// The pass finds references with an owner and a repository of their own.
    pub open spec fn is_cross(self) -> bool {
        self == RefPass::CrossIssue || self == RefPass::CrossCommit
    }
}

/// ASCII letters and digits.
pub open spec fn is_alnum(b: u8) -> bool {
    48 <= b <= 57 || 65 <= b <= 90 || 97 <= b <= 122
}

/// Byte `i` is no letter or digit, or is past the end of the line.
pub open spec fn is_edge(bytes: Seq<u8>, i: int) -> bool {
    i >= bytes.len() || !is_alnum(bytes[i])
}

/// Two ranges have a byte in common.
pub open spec fn overlap(a: (int, int), b: (int, int)) -> bool {
    a.0 < b.1 && a.1 > b.0
}

/// The range overlaps a match.
pub open spec fn overlaps_any(ms: Seq<MatchView>, r: (int, int)) -> bool {
    exists|i: int| 0 <= i < ms.len() && overlap(r, ((#[trigger] ms[i]).start, ms[i].end))
}

/// Where references are looked for: the line, its offset in the buffer, and the code
/// and link ranges in it that are passed over.
pub struct Place {
    pub bytes: Seq<u8>,
    pub offset: int,
    pub code: Seq<Range<usize>>,
    pub links: Seq<Range<usize>>,
}

/// There is a slash among the bytes `s..e`.
pub open spec fn has_slash(bytes: Seq<u8>, s: int, e: int) -> bool {
    exists|k: int| s <= k < e && #[trigger] bytes[k] == 0x2f
}

/// The match at `s..e` of the line counts: it starts outside code and links; a reference
/// with a repository of its own holds the slash between owner and repository, and any
/// other overlaps no earlier match; a mention does not follow a letter or digit, and an
/// issue number stands free on both sides.
pub open spec fn counts(pass: RefPass, ms: Seq<MatchView>, s: int, e: int, at: Place) -> bool {
    &&& !inside_any(at.code, at.offset + s)
    &&& !inside_any(at.links, at.offset + s)
    &&& if pass.is_cross() {
        has_slash(at.bytes, s, e)
    } else {
        !overlaps_any(ms, (at.offset + s, at.offset + e))
    }
    &&& (pass == RefPass::User || pass == RefPass::Issue) ==> s == 0 || is_edge(at.bytes, s - 1)
    &&& pass == RefPass::Issue ==> is_edge(at.bytes, e)
}

/// The reference that the groups of a match stand for.
pub open spec fn ref_of_groups(
    pass: RefPass,
    g: Seq<Option<(int, int)>>,
    bytes: Seq<u8>,
    context: Option<(Seq<char>, Seq<char>)>,
) -> Option<RefView> {
    match pass {
        RefPass::CrossIssue => match (
            group_text(g, 2, bytes),
            group_text(g, 3, bytes),
            group_number(g, 4, bytes),
        ) {
            (Some(owner), Some(repo), Some(number)) => Some(
                RefView::Issue { owner, repo, number },
            ),
            _ => None,
        },
        RefPass::CrossCommit => match (
            group_text(g, 2, bytes),
            group_text(g, 3, bytes),
            group_text(g, 4, bytes),
        ) {
            (Some(owner), Some(repo), Some(sha)) => Some(RefView::Commit { owner, repo, sha }),
            _ => None,
        },
        RefPass::User => match group_text(g, 2, bytes) {
            Some(username) => Some(RefView::User { username }),
            None => None,
        },
        RefPass::Issue => match (context, group_number(g, 1, bytes)) {
            (Some((owner, repo)), Some(number)) => Some(RefView::Issue { owner, repo, number }),
            _ => None,
        },
        RefPass::Sha => match (context, group_text(g, 1, bytes)) {
            (Some((owner, repo)), Some(sha)) => Some(RefView::Commit { owner, repo, sha }),
            _ => None,
        },
    }
}

/// The matches after one more. One that cannot be read, such as a number in digits other
/// than the ASCII ones, is no reference.
pub open spec fn refs_step(
    ms: Seq<MatchView>,
    pass: RefPass,
    g: Seq<Option<(int, int)>>,
    at: Place,
    context: Option<(Seq<char>, Seq<char>)>,
) -> Seq<MatchView> {
    let i = pass.whole();
    if i >= g.len() || g[i] is None {
        ms
    } else {
        let (s, e) = g[i]->Some_0;
        match ref_of_groups(pass, g, at.bytes, context) {
            Some(reference) => if counts(pass, ms, s, e, at) {
                ms.push(MatchView { reference, start: at.offset + s, end: at.offset + e })
            } else {
                ms
            },
            None => ms,
        }
    }
}

/// The matches after a pass.
pub open spec fn refs_pass(
    ms: Seq<MatchView>,
    pass: RefPass,
    caps: Seq<Seq<Option<(int, int)>>>,
    at: Place,
    context: Option<(Seq<char>, Seq<char>)>,
) -> Seq<MatchView>
    decreases caps.len(),
{
    if caps.len() == 0 {
        ms
    } else {
        let before = refs_pass(ms, pass, caps.drop_last(), at, context);
        refs_step(before, pass, caps.last(), at, context)
    }
}

/// What the patterns find in a line.
#[derive(Debug)]
pub struct LineCaptures {
    pub cross_issues: Vec<Groups>,
    pub cross_commits: Vec<Groups>,
    pub users: Vec<Groups>,
    pub issues: Vec<Groups>,
    pub gh_issues: Vec<Groups>,
    pub shas: Vec<Groups>,
}

/// What a [`LineCaptures`] says.
pub struct LineCapturesView {
    pub cross_issues: Seq<Seq<Option<(int, int)>>>,
    pub cross_commits: Seq<Seq<Option<(int, int)>>>,
    pub users: Seq<Seq<Option<(int, int)>>>,
    pub issues: Seq<Seq<Option<(int, int)>>>,
    pub gh_issues: Seq<Seq<Option<(int, int)>>>,
    pub shas: Seq<Seq<Option<(int, int)>>>,
}

impl View for LineCaptures {
    type V = LineCapturesView;

    open spec fn view(&self) -> LineCapturesView {
        LineCapturesView {
            cross_issues: captures_view(self.cross_issues@),
            cross_commits: captures_view(self.cross_commits@),
            users: captures_view(self.users@),
            issues: captures_view(self.issues@),
            gh_issues: captures_view(self.gh_issues@),
            shas: captures_view(self.shas@),
        }
    }
}

/// Every group of some matches is a slice of the text.
pub open spec fn all_fit(caps: Seq<Groups>, bytes: Seq<u8>) -> bool {
    forall|i: int| 0 <= i < caps.len() ==> groups_fit(#[trigger] caps[i], bytes)
}

impl LineCaptures {
    /// Every group is a slice of the line.
    pub open spec fn fits(self, bytes: Seq<u8>) -> bool {
        &&& all_fit(self.cross_issues@, bytes)
        &&& all_fit(self.cross_commits@, bytes)
        &&& all_fit(self.users@, bytes)
        &&& all_fit(self.issues@, bytes)
        &&& all_fit(self.gh_issues@, bytes)
        &&& all_fit(self.shas@, bytes)
    }
}

/// The references of a line, given what the patterns find in it: first those with a
/// repository of their own, then mentions, and with a context the bare issue numbers
/// and the SHAs.
pub open spec fn refs_in(
    found: LineCapturesView,
    at: Place,
    context: Option<(Seq<char>, Seq<char>)>,
) -> Seq<MatchView> {
    let a = refs_pass(seq![], RefPass::CrossIssue, found.cross_issues, at, context);
    let b = refs_pass(a, RefPass::CrossCommit, found.cross_commits, at, context);
    let c = refs_pass(b, RefPass::User, found.users, at, context);
    if context is None {
        c
    } else {
        let d = refs_pass(c, RefPass::Issue, found.issues, at, context);
        let e = refs_pass(d, RefPass::Issue, found.gh_issues, at, context);
        refs_pass(e, RefPass::Sha, found.shas, at, context)
    }
}

/// What the patterns find in a line.
pub open spec fn found_in(line: Seq<char>) -> LineCapturesView {
    LineCapturesView {
        cross_issues: matches_of(CROSS_ISSUE_REF@, line),
        cross_commits: matches_of(CROSS_COMMIT_REF@, line),
        users: matches_of(USER_REF@, line),
        issues: matches_of(ISSUE_REF@, line),
        gh_issues: matches_of(GH_ISSUE_REF@, line),
        shas: matches_of(SHA_REF@, line),
    }
}

/// ASCII hex digits.
pub open spec fn is_hex(b: u8) -> bool {
    48 <= b <= 57 || 65 <= b <= 70 || 97 <= b <= 102
}

/// Byte `i` is one that a reference has: `#`, `@` or `/`, the dash of `GH-`, or the
/// last of seven hex digits.
pub open spec fn hints_at(bytes: Seq<u8>, i: int) -> bool {
    let b = bytes[i];
    ||| b == 0x23 || b == 0x40 || b == 0x2f
    ||| b == 0x2d && i >= 2 && (bytes[i - 1] == 0x68 || bytes[i - 1] == 0x48) && (bytes[i - 2]
        == 0x67 || bytes[i - 2] == 0x47)
    ||| i >= 6 && forall|k: int| i - 6 <= k <= i ==> is_hex(#[trigger] bytes[k])
}

/// The line could hold a reference.
pub open spec fn might_hold_ref(bytes: Seq<u8>) -> bool {
    exists|i: int| 0 <= i < bytes.len() && #[trigger] hints_at(bytes, i)
}

/// Cheap byte pre-scan for whether a line could contain any GitHub reference. True when
/// it has a hash, at-sign, or slash, a case-insensitive GH-dash, or a 7+ ascii-hex run.
pub fn line_might_contain_ref(line: &str) -> (r: bool)
    ensures
        r == might_hold_ref(line.spec_bytes()),
{
    let bytes = line.as_bytes();
    let mut run: usize = 0;
    let mut i: usize = 0;
    while i < bytes.len()
        invariant
            bytes@ == line.spec_bytes(),
            i <= bytes@.len(),
            run <= i,
            run < 7,
            forall|k: int| 0 <= k < i ==> !(#[trigger] hints_at(bytes@, k)),
            forall|k: int| i - run <= k < i ==> is_hex(#[trigger] bytes@[k]),
            run < i ==> !is_hex(bytes@[i - run - 1]),
        decreases bytes@.len() - i,
    {
        let b = bytes[i];
        if b == 0x23 || b == 0x40 || b == 0x2f {
            assert(hints_at(bytes@, i as int));
            return true;
        }
        if b == 0x2d && i >= 2 && (bytes[i - 1] == 0x68 || bytes[i - 1] == 0x48) && (bytes[i - 2]
            == 0x67 || bytes[i - 2] == 0x47) {
            assert(hints_at(bytes@, i as int));
            return true;
        }
        let hex = (48 <= b && b <= 57) || (65 <= b && b <= 70) || (97 <= b && b <= 102);
        if hex {
            run += 1;
            if run >= 7 {
                assert(hints_at(bytes@, i as int));
                return true;
            }
        } else {
            run = 0;
        }
        assert(!hints_at(bytes@, i as int)) by {
            if i >= 6 && (forall|k: int| i - 6 <= k <= i ==> is_hex(#[trigger] bytes@[k])) {
                assert(is_hex(bytes@[i as int]));
                assert(is_hex(bytes@[i - run]));
            }
        }
        i += 1;
    }
    false
}

/// Whether byte `i` is no letter or digit, or is past the end of the line.
fn at_edge(bytes: &[u8], i: usize) -> (r: bool)
    ensures
        r == is_edge(bytes@, i as int),
{
    if i >= bytes.len() {
        return true;
    }
    let b = bytes[i];
    !((48 <= b && b <= 57) || (65 <= b && b <= 90) || (97 <= b && b <= 122))
}

/// Whether there is a slash among the bytes `s..e`.
fn any_slash(bytes: &[u8], s: usize, e: usize) -> (r: bool)
    requires
        e <= bytes@.len(),
    ensures
        r == has_slash(bytes@, s as int, e as int),
{
    let mut k: usize = s;
    while k < e
        invariant
            s <= k,
            e <= bytes@.len(),
            forall|x: int| s <= x < k ==> #[trigger] bytes@[x] != 0x2f,
        decreases e - k,
    {
        if bytes[k] == 0x2f {
            return true;
        }
        k += 1;
    }
    false
}

/// Whether the range overlaps a match.
fn overlaps_matched(ms: &Vec<RawGitHubMatch>, start: usize, end: usize) -> (r: bool)
    ensures
        r == overlaps_any(matches_view(ms@), (start as int, end as int)),
{
    let mut i: usize = 0;
    while i < ms.len()
        invariant
            i <= ms@.len(),
            forall|k: int|
                0 <= k < i ==> !overlap(
                    (start as int, end as int),
                    ((#[trigger] matches_view(ms@)[k]).start, matches_view(ms@)[k].end),
                ),
        decreases ms@.len() - i,
    {
        let r = &ms[i].byte_range;
        assert(matches_view(ms@)[i as int] == ms@[i as int]@);
        if start < r.end && end > r.start {
            return true;
        }
        i += 1;
    }
    false
}

/// The reference that the groups of a match stand for.
fn read_ref(pass: RefPass, g: &Groups, line: &str, context: Option<&GitHubContext>) -> (r: Option<
    GitHubRef,
>)
    requires
        groups_fit(*g, line.spec_bytes()),
    ensures
        ref_if_any(r) == ref_of_groups(
            pass,
            groups_view(*g),
            line.spec_bytes(),
            context_view(context),
        ),
{
    match pass {
        RefPass::CrossIssue => match (
            text_of_group(g, 2, line),
            text_of_group(g, 3, line),
            number_of_group(g, 4, line),
        ) {
            (Some(owner), Some(repo), Some(number)) => Some(
                GitHubRef::Issue { owner, repo, number },
            ),
            _ => None,
        },
        RefPass::CrossCommit => match (
            text_of_group(g, 2, line),
            text_of_group(g, 3, line),
            text_of_group(g, 4, line),
        ) {
            (Some(owner), Some(repo), Some(sha)) => Some(GitHubRef::Commit { owner, repo, sha }),
            _ => None,
        },
        RefPass::User => match text_of_group(g, 2, line) {
            Some(username) => Some(GitHubRef::User { username }),
            None => None,
        },
        RefPass::Issue => match (context, number_of_group(g, 1, line)) {
            (Some(ctx), Some(number)) => Some(
                GitHubRef::Issue { owner: ctx.owner.clone(), repo: ctx.repo.clone(), number },
            ),
            _ => None,
        },
        RefPass::Sha => match (context, text_of_group(g, 1, line)) {
            (Some(ctx), Some(sha)) => Some(
                GitHubRef::Commit { owner: ctx.owner.clone(), repo: ctx.repo.clone(), sha },
            ),
            _ => None,
        },
    }
}

/// The place that a line, its offset and its ranges are.
pub open spec fn place(
    bytes: Seq<u8>,
    offset: int,
    code: Seq<Range<usize>>,
    links: Seq<Range<usize>>,
) -> Place {
    Place { bytes, offset, code, links }
}

/// Adds the references that one pass finds.
fn add_refs(
    ms: &mut Vec<RawGitHubMatch>,
    pass: RefPass,
    caps: &Vec<Groups>,
    line: &str,
    offset: usize,
    context: Option<&GitHubContext>,
    code: &[Range<usize>],
    links: &[Range<usize>],
)
    requires
        all_fit(caps@, line.spec_bytes()),
        offset + line.spec_bytes().len() <= usize::MAX,
    ensures
        matches_view(final(ms)@) == refs_pass(
            matches_view(old(ms)@),
            pass,
            captures_view(caps@),
            place(line.spec_bytes(), offset as int, code@, links@),
            context_view(context),
        ),
{
    let bytes = line.as_bytes();
    let ghost at = place(line.spec_bytes(), offset as int, code@, links@);
    let ghost all = captures_view(caps@);
    let ghost start_ms = matches_view(ms@);
    let ghost ctx = context_view(context);
    let whole: usize = if pass == RefPass::Issue {
        0
    } else {
        1
    };
    let mut i: usize = 0;
    assert(all.subrange(0, 0) =~= Seq::<Seq<Option<(int, int)>>>::empty());
    while i < caps.len()
        invariant
            i <= caps@.len(),
            bytes@ == line.spec_bytes(),
            at == place(line.spec_bytes(), offset as int, code@, links@),
            all == captures_view(caps@),
            ctx == context_view(context),
            whole == pass.whole(),
            all_fit(caps@, line.spec_bytes()),
            offset + line.spec_bytes().len() <= usize::MAX,
            refs_pass(start_ms, pass, all.subrange(0, i as int), at, ctx) == matches_view(ms@),
            start_ms == matches_view(old(ms)@),
        decreases caps@.len() - i,
    {
        let g = &caps[i];
        proof {
            let upto = all.subrange(0, i + 1);
            assert(upto.drop_last() =~= all.subrange(0, i as int));
            assert(upto.last() == groups_view(*g));
        }
        i += 1;
        if whole >= g.len() {
            continue;
        }
        let (s, e) = match g[whole] {
            Some(r) => r,
            None => {
                continue;
            },
        };
        assert(groups_view(*g)[whole as int] == Some((s as int, e as int)));
        let abs_start = offset + s;
        let abs_end = offset + e;
        let cross = pass == RefPass::CrossIssue || pass == RefPass::CrossCommit;
        let apart = if cross {
            any_slash(bytes, s, e)
        } else {
            !overlaps_matched(ms, abs_start, abs_end)
        };
        let bounded = pass == RefPass::User || pass == RefPass::Issue;
        let counted = !in_any(code, abs_start) && !in_any(links, abs_start) && apart && (!bounded
            || s == 0 || at_edge(bytes, s - 1)) && (pass != RefPass::Issue || at_edge(bytes, e));
        assert(counted == counts(pass, matches_view(ms@), s as int, e as int, at));
        if counted {
            match read_ref(pass, g, line, context) {
                Some(reference) => {
                    let m = RawGitHubMatch { reference, byte_range: abs_start..abs_end };
                    let ghost before = ms@;
                    ms.push(m);
                    assert(matches_view(ms@) =~= matches_view(before).push(m@));
                },
                None => {},
            }
        }
    }
    assert(all.subrange(0, i as int) =~= all);
}

/// The references of a line, given what the patterns find in it. One that cannot be read,
/// such as a number in digits other than the ASCII ones, is no reference.
pub fn refs_from_captures(
    line: &str,
    offset: usize,
    context: Option<&GitHubContext>,
    code: &[Range<usize>],
    links: &[Range<usize>],
    found: &LineCaptures,
) -> (r: Vec<RawGitHubMatch>)
    requires
        found.fits(line.spec_bytes()),
        offset + line.spec_bytes().len() <= usize::MAX,
    ensures
        matches_view(r@) == refs_in(
            found@,
            place(line.spec_bytes(), offset as int, code@, links@),
            context_view(context),
        ),
        refs_hold(
            matches_view(r@),
            place(line.spec_bytes(), offset as int, code@, links@),
            context_view(context),
        ),
{
    let ghost at = place(line.spec_bytes(), offset as int, code@, links@);
    let ghost ctx = context_view(context);
    let mut ms: Vec<RawGitHubMatch> = Vec::new();
    assert(matches_view(ms@) =~= Seq::<MatchView>::empty());
    add_refs(
        &mut ms,
        RefPass::CrossIssue,
        &found.cross_issues,
        line,
        offset,
        context,
        code,
        links,
    );
    add_refs(
        &mut ms,
        RefPass::CrossCommit,
        &found.cross_commits,
        line,
        offset,
        context,
        code,
        links,
    );
    add_refs(&mut ms, RefPass::User, &found.users, line, offset, context, code, links);
    if context.is_some() {
        add_refs(&mut ms, RefPass::Issue, &found.issues, line, offset, context, code, links);
        add_refs(&mut ms, RefPass::Issue, &found.gh_issues, line, offset, context, code, links);
        add_refs(&mut ms, RefPass::Sha, &found.shas, line, offset, context, code, links);
    }
    proof {
        lemma_captures_fit(found.cross_issues@, line.spec_bytes());
        lemma_captures_fit(found.cross_commits@, line.spec_bytes());
        lemma_captures_fit(found.users@, line.spec_bytes());
        lemma_captures_fit(found.issues@, line.spec_bytes());
        lemma_captures_fit(found.gh_issues@, line.spec_bytes());
        lemma_captures_fit(found.shas@, line.spec_bytes());
        law_refs_of_a_line(found@, at, ctx);
    }
    ms
}

/// The compiled reference patterns.
pub struct RefPatterns {
    cross_issue: Pattern,
    cross_commit: Pattern,
    user: Pattern,
    issue: Pattern,
    gh_issue: Pattern,
    sha: Pattern,
}

/// The sources of the reference patterns.
pub struct RefSources {
    pub cross_issue: Seq<char>,
    pub cross_commit: Seq<char>,
    pub user: Seq<char>,
    pub issue: Seq<char>,
    pub gh_issue: Seq<char>,
    pub sha: Seq<char>,
}

/// What the reference patterns are compiled from.
pub open spec fn ref_sources() -> RefSources {
    RefSources {
        cross_issue: CROSS_ISSUE_REF@,
        cross_commit: CROSS_COMMIT_REF@,
        user: USER_REF@,
        issue: ISSUE_REF@,
        gh_issue: GH_ISSUE_REF@,
        sha: SHA_REF@,
    }
}

impl RefPatterns {
    /// What each pattern was compiled from.
    pub closed spec fn sources(self) -> RefSources {
        RefSources {
            cross_issue: self.cross_issue.source(),
            cross_commit: self.cross_commit.source(),
            user: self.user.source(),
            issue: self.issue.source(),
            gh_issue: self.gh_issue.source(),
            sha: self.sha.source(),
        }
    }

    #[verifier::type_invariant]
    spec fn inv(self) -> bool {
        self.sources() == ref_sources()
    }

    /// Compiles the patterns.
    pub fn new() -> (r: Self)
        ensures
            r.sources() == ref_sources(),
    {
        RefPatterns {
            cross_issue: Pattern::new(CROSS_ISSUE_REF),
            cross_commit: Pattern::new(CROSS_COMMIT_REF),
            user: Pattern::new(USER_REF),
            issue: Pattern::new(ISSUE_REF),
            gh_issue: Pattern::new(GH_ISSUE_REF),
            sha: Pattern::new(SHA_REF),
        }
    }

    /// What the patterns find in a line.
    pub fn find(&self, line: &str) -> (r: LineCaptures)
        ensures
            r@ == found_in(line@),
            r.fits(line.spec_bytes()),
    {
        proof {
            use_type_invariant(self);
        }
        LineCaptures {
            cross_issues: self.cross_issue.find(line),
            cross_commits: self.cross_commit.find(line),
            users: self.user.find(line),
            issues: self.issue.find(line),
            gh_issues: self.gh_issue.find(line),
            shas: self.sha.find(line),
        }
    }

    /// As [`detect_github_references_in_line`].
    pub fn detect(
        &self,
        line: &str,
        line_byte_offset: usize,
        github_context: Option<&GitHubContext>,
        code_ranges: &[Range<usize>],
        link_ranges: &[Range<usize>],
    ) -> (r: Vec<RawGitHubMatch>)
        requires
            line_byte_offset + line.spec_bytes().len() <= usize::MAX,
        ensures
            matches_view(r@) == line_refs(
                line@,
                line_byte_offset as int,
                context_view(github_context),
                code_ranges@,
                link_ranges@,
            ),
            refs_hold(
                matches_view(r@),
                place(line.spec_bytes(), line_byte_offset as int, code_ranges@, link_ranges@),
                context_view(github_context),
            ),
    {
        // Most lines hold no reference: spare those the patterns.
        if !line_might_contain_ref(line) {
            let none: Vec<RawGitHubMatch> = Vec::new();
            assert(matches_view(none@) =~= Seq::<MatchView>::empty());
            return none;
        }
        let found = self.find(line);
        refs_from_captures(
            line,
            line_byte_offset,
            github_context,
            code_ranges,
            link_ranges,
            &found,
        )
    }
}

/// The references of a line: none where it cannot hold any, else those that the
/// patterns find.
pub open spec fn line_refs(
    line: Seq<char>,
    offset: int,
    context: Option<(Seq<char>, Seq<char>)>,
    code: Seq<Range<usize>>,
    links: Seq<Range<usize>>,
) -> Seq<MatchView> {
    let bytes = encode_utf8(line);
    if might_hold_ref(bytes) {
        refs_in(found_in(line), place(bytes, offset, code, links), context)
    } else {
        seq![]
    }
}

/// Detect GitHub references in a single line of text.
///
/// Returns raw matches that should be validated against the GitHub API
/// before being styled as links. What looks like an issue but has a number in digits other
/// than the ASCII ones is no reference.
///
/// - `line`: the line text to scan
/// - `line_byte_offset`: byte offset of this line in the buffer (for absolute ranges)
/// - `github_context`: owner/repo for resolving relative refs like #123
/// - `code_ranges`: absolute byte ranges of code spans to skip
/// - `link_ranges`: absolute byte ranges of markdown links to skip
pub fn detect_github_references_in_line(
    line: &str,
    line_byte_offset: usize,
    github_context: Option<&GitHubContext>,
    code_ranges: &[Range<usize>],
    link_ranges: &[Range<usize>],
) -> (r: Vec<RawGitHubMatch>)
    requires
        line_byte_offset + line.spec_bytes().len() <= usize::MAX,
    ensures
        matches_view(r@) == line_refs(
            line@,
            line_byte_offset as int,
            context_view(github_context),
            code_ranges@,
            link_ranges@,
        ),
        refs_hold(
            matches_view(r@),
            place(line.spec_bytes(), line_byte_offset as int, code_ranges@, link_ranges@),
            context_view(github_context),
        ),
{
    RefPatterns::new().detect(line, line_byte_offset, github_context, code_ranges, link_ranges)
}

/// The text of a match has a slash.
pub open spec fn slashed(m: MatchView, at: Place) -> bool {
    has_slash(at.bytes, m.start - at.offset, m.end - at.offset)
}

/// What holds of a match: it lies in the line and starts outside code and links; without
/// a context it is a mention or has a slash; with one, an issue or commit without a slash
/// is of its repository.
pub open spec fn ref_holds(
    m: MatchView,
    at: Place,
    context: Option<(Seq<char>, Seq<char>)>,
) -> bool {
    &&& at.offset <= m.start <= m.end <= at.offset + at.bytes.len()
    &&& !inside_any(at.code, m.start) && !inside_any(at.links, m.start)
    &&& slashed(m, at) || match (m.reference, context) {
        (RefView::User { username: _ }, _) => true,
        (RefView::Issue { owner, repo, number: _ }, Some(c)) => owner == c.0 && repo == c.1,
        (RefView::Commit { owner, repo, sha: _ }, Some(c)) => owner == c.0 && repo == c.1,
        _ => false,
    }
}

/// What holds of the references of a line: of each the above, and one without a slash
/// overlaps no other.
pub open spec fn refs_hold(
    ms: Seq<MatchView>,
    at: Place,
    context: Option<(Seq<char>, Seq<char>)>,
) -> bool {
    &&& forall|i: int| 0 <= i < ms.len() ==> ref_holds(#[trigger] ms[i], at, context)
    &&& forall|i: int, j: int|
        0 <= i < ms.len() && 0 <= j < ms.len() && i != j && !slashed(#[trigger] ms[i], at)
            ==> !overlap((ms[i].start, ms[i].end), ((#[trigger] ms[j]).start, ms[j].end))
}

/// Every group of some matches is a range of the line.
pub open spec fn captures_fit(caps: Seq<Seq<Option<(int, int)>>>, len: int) -> bool {
    forall|i: int, k: int|
        0 <= i < caps.len() && 0 <= k < caps[i].len() && (#[trigger] caps[i][k]) is Some ==> 0
            <= caps[i][k]->Some_0.0 <= caps[i][k]->Some_0.1 <= len
}

proof fn lemma_captures_fit(caps: Seq<Groups>, bytes: Seq<u8>)
    requires
        all_fit(caps, bytes),
    ensures
        captures_fit(captures_view(caps), bytes.len() as int),
{
    let v = captures_view(caps);
    assert forall|i: int, k: int|
        0 <= i < v.len() && 0 <= k < v[i].len() && (#[trigger] v[i][k]) is Some implies 0
        <= v[i][k]->Some_0.0 <= v[i][k]->Some_0.1 <= bytes.len() by {
        assert(groups_fit(caps[i], bytes));
        assert(v[i] == groups_view(caps[i]));
        assert(caps[i]@[k] is Some);
    }
}

proof fn lemma_pass_holds(
    ms: Seq<MatchView>,
    pass: RefPass,
    caps: Seq<Seq<Option<(int, int)>>>,
    at: Place,
    context: Option<(Seq<char>, Seq<char>)>,
)
    requires
        refs_hold(ms, at, context),
        captures_fit(caps, at.bytes.len() as int),
        pass.is_cross() ==> forall|i: int| 0 <= i < ms.len() ==> slashed(#[trigger] ms[i], at),
    ensures
        refs_hold(refs_pass(ms, pass, caps, at, context), at, context),
        pass.is_cross() ==> forall|i: int|
            0 <= i < refs_pass(ms, pass, caps, at, context).len() ==> slashed(
                #[trigger] refs_pass(ms, pass, caps, at, context)[i],
                at,
            ),
    decreases caps.len(),
{
    if caps.len() > 0 {
        let init = caps.drop_last();
        assert forall|i: int, k: int|
            0 <= i < init.len() && 0 <= k < init[i].len() && (#[trigger] init[i][k]) is Some implies 0
            <= init[i][k]->Some_0.0 <= init[i][k]->Some_0.1 <= at.bytes.len() by {
            assert(caps[i][k] is Some);
        }
        lemma_pass_holds(ms, pass, init, at, context);
        let before = refs_pass(ms, pass, init, at, context);
        let after = refs_pass(ms, pass, caps, at, context);
        let g = caps.last();
        assert(g == caps[caps.len() - 1]);
        if after != before {
            let (s, e) = g[pass.whole()]->Some_0;
            let m = after.last();
            assert(caps[caps.len() - 1][pass.whole()] is Some);
            assert(m.start - at.offset == s && m.end - at.offset == e);
            assert(ref_holds(m, at, context));
            assert forall|i: int| 0 <= i < after.len() implies ref_holds(
                #[trigger] after[i],
                at,
                context,
            ) by {
                if i < before.len() {
                    assert(after[i] == before[i]);
                }
            }
            assert forall|i: int, j: int|
                0 <= i < after.len() && 0 <= j < after.len() && i != j && !slashed(
                    #[trigger] after[i],
                    at,
                ) implies !overlap(
                (after[i].start, after[i].end),
                ((#[trigger] after[j]).start, after[j].end),
            ) by {
                if i < before.len() {
                    assert(after[i] == before[i]);
                }
                if j < before.len() {
                    assert(after[j] == before[j]);
                }
                if pass.is_cross() {
                    assert(slashed(m, at));
                } else {
                    assert(!overlaps_any(before, (m.start, m.end)));
                    if j < before.len() && i == before.len() {
                        assert(!overlap((m.start, m.end), (before[j].start, before[j].end)));
                    }
                    if i < before.len() && j == before.len() {
                        assert(!overlap((m.start, m.end), (before[i].start, before[i].end)));
                    }
                }
            }
        }
    }
}

/// The references of a line lie in it and start outside code and links. One without a
/// slash overlaps no other. Without a context only mentions and references with a slash
/// come out; with one, the other issues and commits are of its repository.
pub proof fn law_refs_of_a_line(
    found: LineCapturesView,
    at: Place,
    context: Option<(Seq<char>, Seq<char>)>,
)
    requires
        captures_fit(found.cross_issues, at.bytes.len() as int),
        captures_fit(found.cross_commits, at.bytes.len() as int),
        captures_fit(found.users, at.bytes.len() as int),
        captures_fit(found.issues, at.bytes.len() as int),
        captures_fit(found.gh_issues, at.bytes.len() as int),
        captures_fit(found.shas, at.bytes.len() as int),
    ensures
        refs_hold(refs_in(found, at, context), at, context),
{
    let a = refs_pass(seq![], RefPass::CrossIssue, found.cross_issues, at, context);
    let b = refs_pass(a, RefPass::CrossCommit, found.cross_commits, at, context);
    let c = refs_pass(b, RefPass::User, found.users, at, context);
    let d = refs_pass(c, RefPass::Issue, found.issues, at, context);
    let e = refs_pass(d, RefPass::Issue, found.gh_issues, at, context);
    lemma_pass_holds(seq![], RefPass::CrossIssue, found.cross_issues, at, context);
    lemma_pass_holds(a, RefPass::CrossCommit, found.cross_commits, at, context);
    lemma_pass_holds(b, RefPass::User, found.users, at, context);
    lemma_pass_holds(c, RefPass::Issue, found.issues, at, context);
    lemma_pass_holds(d, RefPass::Issue, found.gh_issues, at, context);
    lemma_pass_holds(e, RefPass::Sha, found.shas, at, context);
}

// ---------------------------------------------------------------------------
// Inline math
// ---------------------------------------------------------------------------

/// An inline `$…$` math span detected in a line (buffer byte ranges).
#[derive(Debug, Clone)]
pub struct MathSpan {
    /// The whole `$…$` including delimiters.
    pub full_range: Range<usize>,
    /// The LaTeX between the delimiters.
    pub content_range: Range<usize>,
}

/// The first dollar sign from `j` on that no backslash precedes; the length of the line
/// where there is none.
pub open spec fn next_dollar(b: Seq<u8>, j: int) -> int
    decreases b.len() - j,
{
    if j >= b.len() {
        b.len() as int
    } else if b[j] == 0x24 && b[j - 1] != 0x5c {
        j
    } else {
        next_dollar(b, j + 1)
    }
}

/// The buffer offset is in code or in display math.
pub open spec fn math_excluded(at: Place, i: int) -> bool {
    inside_any(at.code, at.offset + i) || inside_any(at.links, at.offset + i)
}

/// Byte `i` opens a math span: a dollar sign that no backslash precedes, followed by
/// something else than a dollar sign or whitespace, outside code and display math.
pub open spec fn opens_math(at: Place, i: int) -> bool {
    let b = at.bytes;
    &&& b[i] == 0x24
    &&& !(i > 0 && b[i - 1] == 0x5c)
    &&& i + 1 < b.len()
    &&& b[i + 1] != 0x24
    &&& !is_ascii_space(b[i + 1])
    &&& !math_excluded(at, i)
}

/// The math spans from byte `i` on, as offsets of the two dollar signs. A span runs from
/// an opening dollar sign to the next one, which whitespace must not precede.
pub open spec fn math_spans(at: Place, i: int) -> Seq<(int, int)>
    decreases at.bytes.len() - i,
{
    let b = at.bytes;
    if i < 0 || i >= b.len() {
        seq![]
    } else if b[i] == 0x24 && !(i > 0 && b[i - 1] == 0x5c) && i + 1 < b.len() && b[i + 1] == 0x24 {
        math_spans(at, i + 2)
    } else if opens_math(at, i) {
        let j = next_dollar(b, i + 1);
        if i < j && j < b.len() && !is_ascii_space(b[j - 1]) && !math_excluded(at, j) {
            seq![(i, j)] + math_spans(at, j + 1)
        } else {
            math_spans(at, i + 1)
        }
    } else {
        math_spans(at, i + 1)
    }
}

/// A math span as the offsets of its two dollar signs in the line.
pub open spec fn dollars(m: MathSpan, offset: int) -> (int, int) {
    (m.full_range.start - offset, m.full_range.end - 1 - offset)
}

/// The content is what is between the dollar signs.
pub open spec fn is_between(m: MathSpan) -> bool {
    &&& m.content_range.start == m.full_range.start + 1
    &&& m.content_range.end == m.full_range.end - 1
}

/// The first dollar sign from `j` on that no backslash precedes.
fn find_dollar(b: &[u8], j: usize) -> (r: usize)
    requires
        0 < j <= b@.len(),
    ensures
        r == next_dollar(b@, j as int),
        j <= r <= b@.len(),
{
    let n = b.len();
    let mut k: usize = j;
    while k < n && !(b[k] == 0x24 && b[k - 1] != 0x5c)
        invariant
            n == b@.len(),
            0 < j <= k <= n,
            next_dollar(b@, j as int) == next_dollar(b@, k as int),
        decreases n - k,
    {
        k += 1;
    }
    k
}

/// Detect inline `$…$` math in one line: an unescaped `$` opens (but `$$` is a
/// display-math delimiter, skipped here), the next unescaped `$` on the same line closes.
/// The opener must not be followed by whitespace and the closer not preceded by
/// whitespace (so prose like "$5 and $10" doesn't match). `$` inside `code_ranges`
/// (inline code) or `block_ranges` (`$$…$$` display math) is skipped. Buffer offsets via
/// `line_start`.
pub fn detect_inline_math(
    line: &str,
    line_start: usize,
    code_ranges: &[Range<usize>],
    block_ranges: &[Range<usize>],
) -> (r: Vec<MathSpan>)
    requires
        line_start + line.spec_bytes().len() <= usize::MAX,
    ensures
        r@.map_values(|m: MathSpan| dollars(m, line_start as int)) == math_spans(
            place(line.spec_bytes(), line_start as int, code_ranges@, block_ranges@),
            0,
        ),
        forall|i: int| 0 <= i < r@.len() ==> is_between(#[trigger] r@[i]),
{
    let ghost at = place(line.spec_bytes(), line_start as int, code_ranges@, block_ranges@);
    let ghost f = |m: MathSpan| dollars(m, line_start as int);
    let b = line.as_bytes();
    let n = b.len();
    let mut spans: Vec<MathSpan> = Vec::new();
    let mut i: usize = 0;
    assert(spans@.map_values(f) + math_spans(at, 0) =~= math_spans(at, 0));
    while i < n
        invariant
            n == b@.len(),
            i <= n,
            b@ == line.spec_bytes(),
            line_start + n <= usize::MAX,
            at == place(line.spec_bytes(), line_start as int, code_ranges@, block_ranges@),
            f == |m: MathSpan| dollars(m, line_start as int),
            spans@.map_values(f) + math_spans(at, i as int) == math_spans(at, 0),
            forall|k: int| 0 <= k < spans@.len() ==> is_between(#[trigger] spans@[k]),
        decreases n - i,
    {
        if b[i] != 0x24 || (i > 0 && b[i - 1] == 0x5c) {
            i += 1;
            continue;
        }
        // `$$` is a display-math delimiter, not an inline opener.
        if i + 1 < n && b[i + 1] == 0x24 {
            i += 2;
            continue;
        }
        // Opener must be followed by a non-whitespace char, and be outside code/block math.
        if i + 1 >= n || ascii_space(b[i + 1]) || in_any(code_ranges, line_start + i) || in_any(
            block_ranges,
            line_start + i,
        ) {
            i += 1;
            continue;
        }
        // Closing `$`: the next unescaped `$`, whose preceding char isn't whitespace.
        let j = find_dollar(b, i + 1);
        if j < n && !ascii_space(b[j - 1]) && !(in_any(code_ranges, line_start + j) || in_any(
            block_ranges,
            line_start + j,
        )) {
            let m = MathSpan {
                full_range: line_start + i..line_start + j + 1,
                content_range: line_start + i + 1..line_start + j,
            };
            let ghost before = spans@;
            proof {
                assert(f(m) == (i as int, j as int));
                assert(before.push(m).map_values(f) =~= before.map_values(f).push(f(m)));
                assert(before.push(m).map_values(f) + math_spans(at, j + 1)
                    =~= before.map_values(f) + (seq![(i as int, j as int)] + math_spans(
                    at,
                    j + 1,
                )));
            }
            spans.push(m);
            i = j + 1;
        } else {
            i += 1;
        }
    }
    assert(math_spans(at, i as int) =~= Seq::<(int, int)>::empty());
    assert(spans@.map_values(f) =~= math_spans(at, 0));
    spans
}

proof fn lemma_next_dollar(b: Seq<u8>, j: int)
    requires
        0 < j,
    ensures
        j <= b.len() ==> j <= next_dollar(b, j) <= b.len(),
        next_dollar(b, j) < b.len() ==> b[next_dollar(b, j)] == 0x24 && b[next_dollar(b, j) - 1]
            != 0x5c,
        forall|k: int| j <= k < next_dollar(b, j) ==> #[trigger] b[k] != 0x24 || b[k - 1] == 0x5c,
    decreases b.len() - j,
{
    if j < b.len() && !(b[j] == 0x24 && b[j - 1] != 0x5c) {
        lemma_next_dollar(b, j + 1);
    }
}

/// A math span is a pair of dollar signs, not escaped by a backslash, with something
/// between them that neither starts nor ends with whitespace and holds no other dollar sign
/// but escaped ones. Both stand outside code and display math, and the spans follow one
/// another.
pub proof fn law_math_keeps_the_dollar_rule(at: Place, from: int, i: int)
    requires
        0 <= from,
        0 <= i < math_spans(at, from).len(),
    ensures
        ({
            let (s, e) = math_spans(at, from)[i];
            let b = at.bytes;
            &&& from <= s < s + 1 < e < b.len()
            &&& b[s] == 0x24 && b[e] == 0x24
            &&& (s == 0 || b[s - 1] != 0x5c) && b[e - 1] != 0x5c
            &&& !is_ascii_space(b[s + 1]) && !is_ascii_space(b[e - 1])
            &&& forall|k: int| s < k < e ==> #[trigger] b[k] != 0x24 || b[k - 1] == 0x5c
            &&& !math_excluded(at, s) && !math_excluded(at, e)
        }),
        forall|j: int|
            0 <= j < i ==> (#[trigger] math_spans(at, from)[j]).1 < math_spans(at, from)[i].0,
    decreases at.bytes.len() - from,
{
    let b = at.bytes;
    let all = math_spans(at, from);
    if b[from] == 0x24 && !(from > 0 && b[from - 1] == 0x5c) && from + 1 < b.len() && b[from + 1]
        == 0x24 {
        law_math_keeps_the_dollar_rule(at, from + 2, i);
    } else if opens_math(at, from) {
        let j = next_dollar(b, from + 1);
        lemma_next_dollar(b, from + 1);
        if from < j && j < b.len() && !is_ascii_space(b[j - 1]) && !math_excluded(at, j) {
            let rest = math_spans(at, j + 1);
            assert(all == seq![(from, j)] + rest);
            if i > 0 {
                law_math_keeps_the_dollar_rule(at, j + 1, i - 1);
                assert(all[i] == rest[i - 1]);
                assert forall|k: int| 0 <= k < i implies (#[trigger] all[k]).1 < all[i].0 by {
                    if k > 0 {
                        assert(all[k] == rest[k - 1]);
                    }
                }
            }
        } else {
            law_math_keeps_the_dollar_rule(at, from + 1, i);
        }
    } else {
        law_math_keeps_the_dollar_rule(at, from + 1, i);
    }
}

// ---------------------------------------------------------------------------
// Laws
// ---------------------------------------------------------------------------

/// Each kind of reference has its page on GitHub.
pub proof fn law_pages(
    owner: Seq<char>,
    repo: Seq<char>,
    number: u64,
    a: Seq<char>,
    b: Seq<char>,
    lines: Seq<char>,
)
    ensures
        ({
            let home = "https://github.com/"@ + (owner + "/"@ + repo);
            &&& RefView::User { username: a }.url() == "https://github.com/"@ + a
            &&& (RefView::Issue { owner, repo, number }).url() == home + "/issues/"@ + decimal(
                number as nat,
            )
            &&& (RefView::Commit { owner, repo, sha: a }).url() == home + "/commit/"@ + a
            &&& (RefView::Compare { owner, repo, base: a, head: b }).url() == home + "/compare/"@
                + a + "..."@ + b
            &&& (RefView::File { owner, repo, sha: a, path: b, lines: None }).url() =~= home
                + "/blob/"@ + a + "/"@ + b
            &&& (RefView::File { owner, repo, sha: a, path: b, lines: Some(lines) }).url() =~= home
                + "/blob/"@ + a + "/"@ + b + "#"@ + lines
        }),
{
}

/// What a reference is shown as. The repository is left out where it is that of the context.
pub proof fn law_short_texts(
    owner: Seq<char>,
    repo: Seq<char>,
    number: u64,
    a: Seq<char>,
    b: Seq<char>,
    lines: Seq<char>,
    context: Option<(Seq<char>, Seq<char>)>,
)
    ensures
        ({
            let home = if context == Some((owner, repo)) {
                seq![]
            } else {
                owner + "/"@ + repo
            };
            &&& RefView::User { username: a }.short_display(context) == "@"@ + a
            &&& (RefView::Issue { owner, repo, number }).short_display(context) == home + "#"@
                + decimal(number as nat)
            &&& (RefView::Compare { owner, repo, base: a, head: b }).short_display(context) == home
                + "@"@ + a + "..."@ + b
            &&& encode_utf8(a).len() <= 7 ==> {
                &&& (RefView::Commit { owner, repo, sha: a }).short_display(context) == home + "@"@
                    + a
                &&& (RefView::File {
                    owner,
                    repo,
                    sha: a,
                    path: b,
                    lines: None,
                }).short_display(context) =~= home + "@"@ + a + ":"@ + b
                &&& (RefView::File {
                    owner,
                    repo,
                    sha: a,
                    path: b,
                    lines: Some(lines),
                }).short_display(context) =~= home + "@"@ + a + ":"@ + b + "#"@ + lines
            }
        }),
{
}

/// A longer SHA is shown by its first seven bytes: whatever follows them, the reference is
/// shown as if it were not there.
pub proof fn law_short_shas(
    owner: Seq<char>,
    repo: Seq<char>,
    head: Seq<char>,
    rest: Seq<char>,
    path: Seq<char>,
    lines: Option<Seq<char>>,
    context: Option<(Seq<char>, Seq<char>)>,
)
    requires
        encode_utf8(head).len() == 7,
    ensures
        (RefView::Commit { owner, repo, sha: head + rest }).short_display(context) == (
        RefView::Commit { owner, repo, sha: head }).short_display(context),
        (RefView::File { owner, repo, sha: head + rest, path, lines }).short_display(context) == (
        RefView::File { owner, repo, sha: head, path, lines }).short_display(context),
{
    lemma_part_of_text(seq![], head, rest);
    assert(Seq::<char>::empty() + head + rest =~= head + rest);
    assert(encode_utf8(Seq::<char>::empty()).len() == 0);
    crate::text::lemma_encode_concat(head, rest);
    if encode_utf8(rest).len() == 0 {
        assert(encode_utf8(head + rest) =~= encode_utf8(head));
        crate::text::lemma_encode_injective(head + rest, head);
    }
}

/// What the groups of a URL stand for: owner, repository and what follows, in their order.
pub proof fn law_url_groups(
    bytes: Seq<u8>,
    a: (int, int),
    b: (int, int),
    c: (int, int),
    d: (int, int),
    e: (int, int),
)
    ensures
        ({
            let text = |g: (int, int)| decode_utf8(bytes.subrange(g.0, g.1));
            let whole = Some((0int, bytes.len() as int));
            &&& url_ref(
                seq![],
                seq![seq![whole, Some(a), Some(b), Some(c), Some(d)]],
                seq![],
                bytes,
            ) == Some(
                RefView::Compare { owner: text(a), repo: text(b), base: text(c), head: text(d) },
            )
            &&& url_ref(
                seq![],
                seq![],
                seq![seq![whole, Some(a), Some(b), Some(c), Some(d), Some(e)]],
                bytes,
            ) == Some(
                RefView::File {
                    owner: text(a),
                    repo: text(b),
                    sha: text(c),
                    path: text(d),
                    lines: Some(text(e)),
                },
            )
            &&& url_ref(
                seq![],
                seq![],
                seq![seq![whole, Some(a), Some(b), Some(c), Some(d), None]],
                bytes,
            ) == Some(
                RefView::File {
                    owner: text(a),
                    repo: text(b),
                    sha: text(c),
                    path: text(d),
                    lines: None,
                },
            )
            &&& url_ref(seq![], seq![], seq![], bytes) is None
        }),
{
    let whole = Some((0int, bytes.len() as int));
    let g5 = seq![whole, Some(a), Some(b), Some(c), Some(d)];
    assert(g5[1] == Some(a) && g5[2] == Some(b) && g5[3] == Some(c) && g5[4] == Some(d));
    let g6 = seq![whole, Some(a), Some(b), Some(c), Some(d), Some(e)];
    assert(g6[1] == Some(a) && g6[2] == Some(b) && g6[3] == Some(c) && g6[4] == Some(d) && g6[5]
        == Some(e));
    let g7 = seq![whole, Some(a), Some(b), Some(c), Some(d), None::<(int, int)>];
    assert(g7[1] == Some(a) && g7[2] == Some(b) && g7[3] == Some(c) && g7[4] == Some(d)
        && g7[5] is None);
}

/// No range of the list holds the offset.
pub open spec fn outside(ranges: Seq<Range<usize>>, pos: int) -> bool {
    forall|i: int|
        0 <= i < ranges.len() ==> pos < (#[trigger] ranges[i]).start || ranges[i].end <= pos
}

/// Letters and digits of ASCII, by their codes.
pub open spec fn letter_or_digit(b: u8) -> bool {
    (0x30 <= b && b <= 0x39) || (0x41 <= b && b <= 0x5a) || (0x61 <= b && b <= 0x7a)
}

/// A mention is found where it starts outside code and links, overlaps nothing that was
/// found before and follows no letter or digit; elsewhere nothing is added. It refers to the
/// user of its second group.
pub proof fn law_mentions(
    ms: Seq<MatchView>,
    at: Place,
    context: Option<(Seq<char>, Seq<char>)>,
    m: (int, int),
    name: (int, int),
)
    requires
        0 <= m.0 <= m.1 <= at.bytes.len(),
    ensures
        ({
            let g = seq![Some(m), Some(m), Some(name)];
            let (s, e) = (at.offset + m.0, at.offset + m.1);
            let free = outside(at.code, s) && outside(at.links, s);
            let clear = forall|i: int|
                0 <= i < ms.len() ==> e <= (#[trigger] ms[i]).start || ms[i].end <= s;
            let edge = m.0 == 0 || !letter_or_digit(at.bytes[m.0 - 1]);
            let r = refs_pass(ms, RefPass::User, seq![g], at, context);
            &&& free && clear && edge ==> r == ms.push(
                MatchView {
                    reference: RefView::User {
                        username: decode_utf8(at.bytes.subrange(name.0, name.1)),
                    },
                    start: s,
                    end: e,
                },
            )
            &&& !(free && clear && edge) ==> r == ms
        }),
{
    let g = seq![Some(m), Some(m), Some(name)];
    lemma_one_capture(ms, RefPass::User, g, at, context);
    assert(g[1] == Some(m) && g[2] == Some(name));
    lemma_outside(at.code, at.offset + m.0);
    lemma_outside(at.links, at.offset + m.0);
    lemma_clear(ms, at.offset + m.0, at.offset + m.1);
}

/// The number or the SHA of a context's repository, with `whole` the group of the match.
/// A number stands free on both sides; a SHA is bounded by its pattern.
pub proof fn law_bare_references(
    ms: Seq<MatchView>,
    at: Place,
    owner: Seq<char>,
    repo: Seq<char>,
    m: (int, int),
    part: (int, int),
)
    requires
        0 <= m.0 <= m.1 <= at.bytes.len(),
    ensures
        ({
            let context = Some((owner, repo));
            let (s, e) = (at.offset + m.0, at.offset + m.1);
            let free = outside(at.code, s) && outside(at.links, s);
            let clear = forall|i: int|
                0 <= i < ms.len() ==> e <= (#[trigger] ms[i]).start || ms[i].end <= s;
            let edges = (m.0 == 0 || !letter_or_digit(at.bytes[m.0 - 1])) && (m.1
                == at.bytes.len() || !letter_or_digit(at.bytes[m.1]));
            let issues = refs_pass(
                ms,
                RefPass::Issue,
                seq![seq![Some(m), Some(part)]],
                at,
                context,
            );
            let shas = refs_pass(ms, RefPass::Sha, seq![seq![Some(m), Some(m)]], at, context);
            &&& free && clear && edges ==> (issues == ms || exists|number: u64|
                issues == ms.push(
                    MatchView {
                        reference: RefView::Issue { owner, repo, number },
                        start: s,
                        end: e,
                    },
                ))
            &&& free && clear && edges && part.0 < part.1 && (forall|k: int|
                part.0 <= k < part.1 ==> 0x30 <= #[trigger] at.bytes[k] && at.bytes[k] <= 0x39)
                && number_of(at.bytes.subrange(part.0, part.1)) <= u64::MAX && 0 <= part.0
                && part.1 <= at.bytes.len() ==> issues == ms.push(
                MatchView {
                    reference: RefView::Issue {
                        owner,
                        repo,
                        number: number_of(at.bytes.subrange(part.0, part.1)) as u64,
                    },
                    start: s,
                    end: e,
                },
            )
            &&& !(free && clear && edges) ==> issues == ms
            &&& free && clear ==> shas == ms.push(
                MatchView {
                    reference: RefView::Commit {
                        owner,
                        repo,
                        sha: decode_utf8(at.bytes.subrange(m.0, m.1)),
                    },
                    start: s,
                    end: e,
                },
            )
            &&& !(free && clear) ==> shas == ms
            &&& refs_pass(ms, RefPass::Issue, seq![seq![Some(m), Some(part)]], at, None) == ms
            &&& refs_pass(ms, RefPass::Sha, seq![seq![Some(m), Some(m)]], at, None) == ms
        }),
{
    let context = Some((owner, repo));
    let gi = seq![Some(m), Some(part)];
    let gs = seq![Some(m), Some(m)];
    assert(gi[0] == Some(m) && gi[1] == Some(part) && gs[1] == Some(m));
    lemma_one_capture(ms, RefPass::Issue, gi, at, context);
    lemma_one_capture(ms, RefPass::Sha, gs, at, context);
    lemma_one_capture(ms, RefPass::Issue, gi, at, None);
    lemma_one_capture(ms, RefPass::Sha, gs, at, None);
    lemma_outside(at.code, at.offset + m.0);
    lemma_outside(at.links, at.offset + m.0);
    lemma_clear(ms, at.offset + m.0, at.offset + m.1);
    let text = at.bytes.subrange(part.0, part.1);
    if 0 <= part.0 && part.0 < part.1 && part.1 <= at.bytes.len() && (forall|k: int|
        part.0 <= k < part.1 ==> 0x30 <= #[trigger] at.bytes[k] && at.bytes[k] <= 0x39) {
        assert forall|k: int| 0 <= k < text.len() implies is_digit(#[trigger] text[k]) by {
            assert(text[k] == at.bytes[part.0 + k]);
        }
    }
}

/// A reference with a repository of its own counts wherever it starts outside code and links
/// and holds a slash, whatever was found before it. It refers to its owner and repository.
pub proof fn law_cross_references(
    ms: Seq<MatchView>,
    at: Place,
    context: Option<(Seq<char>, Seq<char>)>,
    m: (int, int),
    o: (int, int),
    r: (int, int),
    part: (int, int),
    k: int,
)
    requires
        0 <= m.0 <= k < m.1 <= at.bytes.len(),
        at.bytes[k] == 0x2f,
        0 <= part.0 < part.1 <= at.bytes.len(),
    ensures
        ({
            let g = seq![Some(m), Some(m), Some(o), Some(r), Some(part)];
            let (s, e) = (at.offset + m.0, at.offset + m.1);
            let free = outside(at.code, s) && outside(at.links, s);
            let owner = decode_utf8(at.bytes.subrange(o.0, o.1));
            let repo = decode_utf8(at.bytes.subrange(r.0, r.1));
            let number = number_of(at.bytes.subrange(part.0, part.1));
            let commits = refs_pass(ms, RefPass::CrossCommit, seq![g], at, context);
            let issues = refs_pass(ms, RefPass::CrossIssue, seq![g], at, context);
            &&& !free ==> commits == ms && issues == ms
            &&& free ==> commits == ms.push(
                MatchView {
                    reference: RefView::Commit {
                        owner,
                        repo,
                        sha: decode_utf8(at.bytes.subrange(part.0, part.1)),
                    },
                    start: s,
                    end: e,
                },
            )
            &&& free && number <= u64::MAX && (forall|k: int|
                part.0 <= k < part.1 ==> 0x30 <= #[trigger] at.bytes[k] && at.bytes[k] <= 0x39)
                ==> issues == ms.push(
                MatchView {
                    reference: RefView::Issue { owner, repo, number: number as u64 },
                    start: s,
                    end: e,
                },
            )
        }),
{
    let g = seq![Some(m), Some(m), Some(o), Some(r), Some(part)];
    assert(g[1] == Some(m) && g[2] == Some(o) && g[3] == Some(r) && g[4] == Some(part));
    lemma_one_capture(ms, RefPass::CrossCommit, g, at, context);
    lemma_one_capture(ms, RefPass::CrossIssue, g, at, context);
    lemma_outside(at.code, at.offset + m.0);
    lemma_outside(at.links, at.offset + m.0);
    assert(has_slash(at.bytes, m.0, m.1));
    let text = at.bytes.subrange(part.0, part.1);
    if forall|k: int|
        part.0 <= k < part.1 ==> 0x30 <= #[trigger] at.bytes[k] && at.bytes[k] <= 0x39 {
        assert forall|k: int| 0 <= k < text.len() implies is_digit(#[trigger] text[k]) by {
            assert(text[k] == at.bytes[part.0 + k]);
        }
    }
}

proof fn lemma_one_capture(
    ms: Seq<MatchView>,
    pass: RefPass,
    g: Seq<Option<(int, int)>>,
    at: Place,
    context: Option<(Seq<char>, Seq<char>)>,
)
    ensures
        refs_pass(ms, pass, seq![g], at, context) == refs_step(ms, pass, g, at, context),
{
    let caps = seq![g];
    assert(caps.drop_last() =~= seq![]);
    assert(refs_pass(ms, pass, caps.drop_last(), at, context) == ms);
    assert(caps.last() == g);
}

proof fn lemma_outside(ranges: Seq<Range<usize>>, pos: int)
    ensures
        outside(ranges, pos) == !inside_any(ranges, pos),
{
    if !inside_any(ranges, pos) {
        assert forall|i: int| 0 <= i < ranges.len() implies pos < (#[trigger] ranges[i]).start
            || ranges[i].end <= pos by {
            assert(!(ranges[i].start <= pos && pos < ranges[i].end));
        }
    }
}

proof fn lemma_clear(ms: Seq<MatchView>, s: int, e: int)
    ensures
        (forall|i: int| 0 <= i < ms.len() ==> e <= (#[trigger] ms[i]).start || ms[i].end <= s)
            == !overlaps_any(ms, (s, e)),
{
    if !overlaps_any(ms, (s, e)) {
        assert forall|i: int| 0 <= i < ms.len() implies e <= (#[trigger] ms[i]).start || ms[i].end
            <= s by {
            assert(!overlap((s, e), (ms[i].start, ms[i].end)));
        }
    }
}

/// What was found stays: each pass only adds to it. Without a context the passes for bare
/// numbers and SHAs add nothing.
pub proof fn law_passes_add(
    found: LineCapturesView,
    at: Place,
    context: Option<(Seq<char>, Seq<char>)>,
)
    ensures
        ({
            let cross = refs_pass(
                seq![],
                RefPass::CrossIssue,
                found.cross_issues,
                at,
                context,
            );
            &&& cross.is_prefix_of(refs_in(found, at, context))
            &&& context is None && found.users.len() == 0 && found.cross_commits.len() == 0
                ==> refs_in(found, at, context) == cross
            &&& context is Some && found.cross_issues.len() == 0 && found.cross_commits.len() == 0
                && found.users.len() == 0 && found.issues.len() == 0 && found.gh_issues.len() == 0
                ==> refs_in(found, at, context) == refs_pass(
                seq![],
                RefPass::Sha,
                found.shas,
                at,
                context,
            )
            &&& context is Some && found.cross_issues.len() == 0 && found.cross_commits.len() == 0
                && found.users.len() == 0 && found.issues.len() == 0 && found.shas.len() == 0
                ==> refs_in(found, at, context) == refs_pass(
                seq![],
                RefPass::Issue,
                found.gh_issues,
                at,
                context,
            )
            &&& context is Some && found.cross_issues.len() == 0 && found.cross_commits.len() == 0
                && found.users.len() == 0 && found.gh_issues.len() == 0 && found.shas.len() == 0
                ==> refs_in(found, at, context) == refs_pass(
                seq![],
                RefPass::Issue,
                found.issues,
                at,
                context,
            )
            &&& found.cross_issues.len() == 0 && found.cross_commits.len() == 0
                && found.issues.len() == 0 && found.gh_issues.len() == 0 && found.shas.len() == 0
                ==> refs_in(found, at, context) == refs_pass(
                seq![],
                RefPass::User,
                found.users,
                at,
                context,
            )
            &&& found.cross_issues.len() == 0 && found.users.len() == 0 && found.issues.len() == 0
                && found.gh_issues.len() == 0 && found.shas.len() == 0 ==> refs_in(
                found,
                at,
                context,
            ) == refs_pass(seq![], RefPass::CrossCommit, found.cross_commits, at, context)
        }),
{
    let a = refs_pass(seq![], RefPass::CrossIssue, found.cross_issues, at, context);
    let b = refs_pass(a, RefPass::CrossCommit, found.cross_commits, at, context);
    let c = refs_pass(b, RefPass::User, found.users, at, context);
    let d = refs_pass(c, RefPass::Issue, found.issues, at, context);
    let e = refs_pass(d, RefPass::Issue, found.gh_issues, at, context);
    lemma_pass_prefix(a, RefPass::CrossCommit, found.cross_commits, at, context);
    lemma_pass_prefix(b, RefPass::User, found.users, at, context);
    lemma_pass_prefix(c, RefPass::Issue, found.issues, at, context);
    lemma_pass_prefix(d, RefPass::Issue, found.gh_issues, at, context);
    lemma_pass_prefix(e, RefPass::Sha, found.shas, at, context);
}

proof fn lemma_pass_prefix(
    ms: Seq<MatchView>,
    pass: RefPass,
    caps: Seq<Seq<Option<(int, int)>>>,
    at: Place,
    context: Option<(Seq<char>, Seq<char>)>,
)
    ensures
        ms.is_prefix_of(refs_pass(ms, pass, caps, at, context)),
    decreases caps.len(),
{
    if caps.len() > 0 {
        lemma_pass_prefix(ms, pass, caps.drop_last(), at, context);
        let before = refs_pass(ms, pass, caps.drop_last(), at, context);
        let after = refs_pass(ms, pass, caps, at, context);
        assert(before.is_prefix_of(after));
    }
}

/// The seven bytes that end with byte `i` are ASCII hex digits.
pub open spec fn seven_digits(bytes: Seq<u8>, i: int) -> bool {
    i >= 6 && forall|k: int|
        i - 6 <= k <= i ==> (0x30 <= (#[trigger] bytes[k]) && bytes[k] <= 0x39) || (0x61 <= bytes[k]
            && bytes[k] <= 0x66) || (0x41 <= bytes[k] && bytes[k] <= 0x46)
}

/// A line with a `#`, an `@`, a `/`, a `GH-` in any case or seven hex digits is looked at;
/// one with none of `#`, `@`, `/` and `-` and no seven hex digits is passed over.
pub proof fn law_lines_that_are_looked_at(bytes: Seq<u8>, i: int)
    requires
        0 <= i < bytes.len(),
    ensures
        bytes[i] == '#' as u8 || bytes[i] == '@' as u8 || bytes[i] == '/' as u8 ==> might_hold_ref(
            bytes,
        ),
        i >= 2 && bytes[i] == '-' as u8 && (bytes[i - 1] == 'H' as u8 || bytes[i - 1] == 'h' as u8)
            && (bytes[i - 2] == 'G' as u8 || bytes[i - 2] == 'g' as u8) ==> might_hold_ref(bytes),
        seven_digits(bytes, i) ==> might_hold_ref(bytes),
        (forall|k: int|
            0 <= k < bytes.len() ==> (#[trigger] bytes[k]) != '#' as u8 && bytes[k] != '@' as u8
                && bytes[k] != '/' as u8 && bytes[k] != '-' as u8) && (forall|k: int|
            0 <= k < bytes.len() ==> !(#[trigger] seven_digits(bytes, k))) ==> !might_hold_ref(
            bytes,
        ),
{
    assert('#' as u8 == 0x23 && '@' as u8 == 0x40 && '/' as u8 == 0x2f && '-' as u8 == 0x2d
        && 'H' as u8 == 0x48 && 'h' as u8 == 0x68 && 'G' as u8 == 0x47 && 'g' as u8 == 0x67);
    if seven_digits(bytes, i) {
        assert forall|k: int| i - 6 <= k <= i implies is_hex(#[trigger] bytes[k]) by {}
    }
    if hints_at(bytes, i) {
        assert(might_hold_ref(bytes));
    }
    if might_hold_ref(bytes) && (forall|k: int|
        0 <= k < bytes.len() ==> (#[trigger] bytes[k]) != '#' as u8 && bytes[k] != '@' as u8
            && bytes[k] != '/' as u8 && bytes[k] != '-' as u8) {
        let h = choose|h: int| 0 <= h < bytes.len() && #[trigger] hints_at(bytes, h);
        assert forall|k: int| h - 6 <= k <= h implies (0x30 <= (#[trigger] bytes[k]) && bytes[k]
            <= 0x39) || (0x61 <= bytes[k] && bytes[k] <= 0x66) || (0x41 <= bytes[k] && bytes[k]
            <= 0x46) by {
            assert(is_hex(bytes[k]));
        }
        assert(seven_digits(bytes, h));
    }
}

/// A URL that starts outside code and links and has a host with a dot is found; one that
/// starts in them, or has no such host, is not. The others are not touched.
pub proof fn law_urls_are_found(
    caps: Seq<Seq<Option<(int, int)>>>,
    m: (int, int),
    bytes: Seq<u8>,
    offset: int,
    code: Seq<Range<usize>>,
    links: Seq<Range<usize>>,
)
    ensures
        ({
            let before = naked_urls(caps, bytes, offset, code, links);
            let after = naked_urls(caps.push(seq![Some(m)]), bytes, offset, code, links);
            let url = decode_utf8(bytes.subrange(m.0, m.1));
            let free = outside(code, offset + m.0) && outside(links, offset + m.0);
            &&& free && is_web_url(bytes, m.0, m.1) ==> after == before.push(
                NakedUrlView {
                    url,
                    start: offset + m.0,
                    end: offset + m.1,
                    github_ref: ref_of_url(url),
                },
            )
            &&& !(free && is_web_url(bytes, m.0, m.1)) ==> after == before
        }),
{
    let all = caps.push(seq![Some(m)]);
    assert(all.drop_last() =~= caps);
    assert(all.last() == seq![Some(m)]);
    assert(seq![Some(m)][0] == Some(m));
    lemma_outside(code, offset + m.0);
    lemma_outside(links, offset + m.0);
}

/// A URL of the web is `http://` or `https://` and a host with a dot before any slash or
/// colon.
pub proof fn law_web_urls(before: Seq<u8>, host: Seq<u8>, s: int)
    requires
        forall|i: int|
            0 <= i < host.len() ==> #[trigger] host[i] != 0x2f && host[i] != 0x3a,
        before.len() == s,
    ensures
        ({
            let secure = before + encode_utf8("https://"@) + host;
            let plain = before + encode_utf8("http://"@) + host;
            let ftp = before + encode_utf8("ftp://"@) + host;
            let dotted = exists|k: int| 0 <= k < host.len() && #[trigger] host[k] == 0x2e;
            &&& is_web_url(secure, s, secure.len() as int) == dotted
            &&& is_web_url(plain, s, plain.len() as int) == dotted
            &&& !is_web_url(ftp, s, ftp.len() as int)
        }),
{
    let h = encode_utf8("http://"@);
    let hs = encode_utf8("https://"@);
    let f = encode_utf8("ftp://"@);
    lemma_scheme_bytes();
    let secure = before + hs + host;
    let plain = before + h + host;
    let ftp = before + f + host;
    assert(secure.subrange(s, s + hs.len()) =~= hs);
    assert(plain.subrange(s, s + h.len()) =~= h);
    if matches_at(plain, hs, s) {
        assert(plain[s + 4] == hs[4]) by {
            assert(plain.subrange(s, s + hs.len())[4] == plain[s + 4]);
        }
        assert(plain[s + 4] == h[4]);
    }
    if matches_at(ftp, hs, s) {
        assert(ftp.subrange(s, s + hs.len())[0] == ftp[s]);
        assert(ftp[s] == f[0]);
    }
    if matches_at(ftp, h, s) {
        assert(ftp.subrange(s, s + h.len())[0] == ftp[s]);
        assert(ftp[s] == f[0]);
    }
    assert(host_start(secure, s) == Some(s + hs.len()));
    assert(host_start(plain, s) == Some(s + h.len()));
    assert(host_start(ftp, s) is None);
    lemma_host(secure, s, s + hs.len(), host);
    lemma_host(plain, s, s + h.len(), host);
}

proof fn lemma_scheme_bytes()
    ensures
        encode_utf8("http://"@).len() == 7,
        encode_utf8("https://"@).len() == 8,
        encode_utf8("http://"@)[0] == 0x68,
        encode_utf8("http://"@)[4] == 0x3a,
        encode_utf8("https://"@)[0] == 0x68,
        encode_utf8("https://"@)[4] == 0x73,
        encode_utf8("ftp://"@).len() == 6,
        encode_utf8("ftp://"@)[0] == 0x66,
{
    reveal_strlit("http://");
    reveal_strlit("https://");
    reveal_strlit("ftp://");
    is_ascii_chars_encode_utf8("http://"@);
    is_ascii_chars_encode_utf8("https://"@);
    is_ascii_chars_encode_utf8("ftp://"@);
}

proof fn lemma_host(bytes: Seq<u8>, s: int, a: int, host: Seq<u8>)
    requires
        0 <= a,
        host_start(bytes, s) == Some(a),
        bytes.len() == a + host.len(),
        bytes.subrange(a, bytes.len() as int) =~= host,
        forall|i: int| 0 <= i < host.len() ==> #[trigger] host[i] != 0x2f && host[i] != 0x3a,
    ensures
        is_web_url(bytes, s, bytes.len() as int) <==> exists|k: int|
            0 <= k < host.len() && #[trigger] host[k] == 0x2e,
{
    assert forall|i: int| a <= i < bytes.len() implies #[trigger] bytes[i] == host[i - a] by {
        assert(bytes.subrange(a, bytes.len() as int)[i - a] == bytes[i]);
    }
    if is_web_url(bytes, s, bytes.len() as int) {
        let k = choose|k: int| a <= k < bytes.len() as int && #[trigger] dot_at(bytes, a, k);
        assert(dot_at(bytes, a, k));
        assert(host[k - a] == 0x2e);
        assert(0 <= k - a < host.len());
    }
    if exists|k: int| 0 <= k < host.len() && #[trigger] host[k] == 0x2e {
        let k = choose|k: int| 0 <= k < host.len() && #[trigger] host[k] == 0x2e;
        assert(bytes[a + k] == 0x2e);
        let first = host_start(bytes, s)->Some_0;
        assert(dot_at(bytes, first, a + k));
        assert(exists|q: int| first <= q < bytes.len() && #[trigger] dot_at(bytes, first, q));
    }
}

/// A line with exactly two dollar signs, neither escaped, holds the math between them where
/// something is between them that neither starts nor ends with a blank, and neither sign is
/// in code or display math; and no other math in any case.
pub proof fn law_two_dollars(at: Place, i: int, j: int)
    requires
        0 <= i < j < at.bytes.len(),
        at.bytes[i] == '$' as u8,
        at.bytes[j] == '$' as u8,
        forall|k: int| 0 <= k < at.bytes.len() && #[trigger] at.bytes[k] == '$' as u8 ==> k == i
            || k == j,
        i > 0 ==> at.bytes[i - 1] != '\\' as u8,
        at.bytes[j - 1] != '\\' as u8,
    ensures
        ({
            let b = at.bytes;
            let blank = |c: u8| c == 0x20 || c == 0x09 || c == 0x0a || c == 0x0c || c == 0x0d;
            let free = outside(at.code, at.offset + i) && outside(at.links, at.offset + i)
                && outside(at.code, at.offset + j) && outside(at.links, at.offset + j);
            let math = i + 1 < j && !blank(b[i + 1]) && !blank(b[j - 1]) && free;
            &&& math ==> math_spans(at, 0) == seq![(i, j)]
            &&& !math ==> math_spans(at, 0).len() == 0
        }),
{
    let b = at.bytes;
    assert('$' as u8 == 0x24 && '\\' as u8 == 0x5c);
    lemma_outside(at.code, at.offset + i);
    lemma_outside(at.links, at.offset + i);
    lemma_outside(at.code, at.offset + j);
    lemma_outside(at.links, at.offset + j);
    lemma_no_math(at, 0, i);
    lemma_no_math(at, j + 1, b.len() as int);
    lemma_no_math(at, i + 1, j);
    lemma_no_dollar(b, i + 1, j);
    lemma_no_dollar(b, j + 1, b.len() as int);
    assert(math_spans(at, b.len() as int).len() == 0);
    assert(math_spans(at, j + 1) =~= seq![]);
    assert(next_dollar(b, j + 1) == b.len());
    assert(math_spans(at, j) =~= seq![]);
    if i + 1 == j {
        assert(math_spans(at, i) == math_spans(at, i + 2));
    } else {
        assert(next_dollar(b, i + 1) == j);
        assert(seq![(i, j)] + math_spans(at, j + 1) =~= seq![(i, j)]);
    }
}

proof fn lemma_no_math(at: Place, from: int, to: int)
    requires
        0 <= from <= to <= at.bytes.len(),
        forall|k: int| from <= k < to ==> #[trigger] at.bytes[k] != 0x24,
    ensures
        math_spans(at, from) == math_spans(at, to),
    decreases to - from,
{
    if from < to {
        assert(at.bytes[from] != 0x24);
        lemma_no_math(at, from + 1, to);
    }
}

proof fn lemma_no_dollar(b: Seq<u8>, from: int, to: int)
    requires
        0 <= from <= to <= b.len(),
        forall|k: int| from <= k < to ==> #[trigger] b[k] != 0x24,
    ensures
        next_dollar(b, from) == next_dollar(b, to),
    decreases to - from,
{
    if from < to {
        assert(b[from] != 0x24);
        lemma_no_dollar(b, from + 1, to);
    }
}

/// Each kind of reference is looked for by its pattern, in lines that could hold one; in any
/// other line nothing is found.
pub proof fn law_patterns_of_references(
    line: Seq<char>,
    offset: int,
    context: Option<(Seq<char>, Seq<char>)>,
    code: Seq<Range<usize>>,
    links: Seq<Range<usize>>,
)
    ensures
        found_in(line).issues == matches_of("#(\\d{1,10})"@, line),
        found_in(line).gh_issues == matches_of("(?i)GH-(\\d{1,10})"@, line),
        found_in(line).shas == matches_of("\\b([0-9a-f]{7,40})\\b"@, line),
        found_in(line).users == matches_of(
            "(@([a-zA-Z0-9](?:[a-zA-Z0-9-]*[a-zA-Z0-9])?))(?:[^a-zA-Z0-9/]|$)"@,
            line,
        ),
        found_in(line).cross_issues == matches_of(
            "(([a-zA-Z0-9-]+)/([a-zA-Z0-9._-]+)#(\\d{1,10}))(?:[^a-zA-Z0-9]|$)"@,
            line,
        ),
        found_in(line).cross_commits == matches_of(
            "(([a-zA-Z0-9-]+)/([a-zA-Z0-9._-]+)@([0-9a-f]{7,40}))(?:[^a-zA-Z0-9]|$)"@,
            line,
        ),
        !might_hold_ref(encode_utf8(line)) ==> line_refs(line, offset, context, code, links).len()
            == 0,
        might_hold_ref(encode_utf8(line)) ==> line_refs(line, offset, context, code, links)
            == refs_in(
            found_in(line),
            (Place { bytes: encode_utf8(line), offset, code, links }),
            context,
        ),
{
}

/// The range of a math span is that of its two dollar signs, both included; its content is
/// what is between them.
pub proof fn law_math_ranges(m: MathSpan, offset: int, i: int, j: int)
    requires
        dollars(m, offset) == (i, j),
        is_between(m),
    ensures
        m.full_range.start == offset + i,
        m.full_range.end == offset + j + 1,
        m.content_range.start == offset + i + 1,
        m.content_range.end == offset + j,
{
}

} // verus!
