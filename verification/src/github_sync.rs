//! Bringing GitHub data into the editor: which references are validated, what a validation
//! says, and the autocomplete rows that fetched issues and users become.
use crate::marker::copy_text;
use crate::overlay::{AutocompleteSuggestion, SuggestionView};
use crate::refs::{context_view, GitHubContext, GitHubRef, RefView};
use crate::validation::{
    GitHubValidationCache, IssueOrPr, IssueView, MentionableUser, RefDataView, StateView, UserView,
    ValidatedRefData,
};
use vstd::prelude::*;
use vstd::string::*;

verus! {

// ---------------------------------------------------------------------------
// Validation
// ---------------------------------------------------------------------------

/// What references say.
pub open spec fn refs_view(rs: Seq<GitHubRef>) -> Seq<RefView> {
    rs.map_values(|r: GitHubRef| r@)
}

/// The cache after a validation was started for the first `k` references.
pub open spec fn pending(
    refs: Seq<RefView>,
    cache: Map<RefView, StateView>,
    k: int,
) -> Map<RefView, StateView>
    decreases k,
{
    if k <= 0 {
        cache
    } else {
        let c = pending(refs, cache, k - 1);
        if c.dom().contains(refs[k - 1]) {
            c
        } else {
            c.insert(refs[k - 1], StateView::Pending)
        }
    }
}

/// The references among the first `k` for which a validation is started: those of which
/// nothing is known, once each.
pub open spec fn to_validate(
    refs: Seq<RefView>,
    cache: Map<RefView, StateView>,
    k: int,
) -> Seq<RefView>
    decreases k,
{
    if k <= 0 {
        seq![]
    } else {
        let rest = to_validate(refs, cache, k - 1);
        if pending(refs, cache, k - 1).dom().contains(refs[k - 1]) {
            rest
        } else {
            rest.push(refs[k - 1])
        }
    }
}

/// For each detected GitHub ref with no cache entry yet, marks it pending and hands it out to
/// be validated.
pub fn start_validations(refs: &[GitHubRef], cache: &mut GitHubValidationCache) -> (r: Vec<
    GitHubRef,
>)
    ensures
        final(cache)@ == pending(refs_view(refs@), old(cache)@, refs@.len() as int),
        refs_view(r@) == to_validate(refs_view(refs@), old(cache)@, refs@.len() as int),
{
    let ghost before = cache@;
    let mut out: Vec<GitHubRef> = Vec::new();
    let mut i: usize = 0;
    assert(refs_view(out@) =~= Seq::<RefView>::empty());
    while i < refs.len()
        invariant
            i <= refs@.len(),
            cache@ == pending(refs_view(refs@), before, i as int),
            refs_view(out@) == to_validate(refs_view(refs@), before, i as int),
        decreases refs@.len() - i,
    {
        if !cache.contains(&refs[i]) {
            cache.mark_pending(refs[i].clone());
            let ghost so_far = out@;
            let r = refs[i].clone();
            let ghost said = r@;
            out.push(r);
            assert(refs_view(out@) =~= refs_view(so_far).push(said));
        }
        i += 1;
    }
    out
}

/// A validation is started once for every reference of which nothing is known, and for no
/// other; what is known stays.
pub proof fn law_validations_start_once(
    refs: Seq<RefView>,
    cache: Map<RefView, StateView>,
    k: int,
    i: int,
    j: int,
)
    requires
        0 <= k <= refs.len(),
        0 <= i < j < to_validate(refs, cache, k).len(),
    ensures
        to_validate(refs, cache, k)[i] != to_validate(refs, cache, k)[j],
        !cache.dom().contains(to_validate(refs, cache, k)[i]),
        !cache.dom().contains(to_validate(refs, cache, k)[j]),
{
    lemma_started(refs, cache, k);
}

/// After starting validations, every reference has an entry, and the entries that were there
/// are unchanged; a second run on the same references starts nothing.
pub proof fn law_starting_again_starts_nothing(
    refs: Seq<RefView>,
    cache: Map<RefView, StateView>,
    k: int,
)
    requires
        0 <= k <= refs.len(),
    ensures
        forall|r: RefView| #[trigger]
            cache.dom().contains(r) ==> pending(refs, cache, k).dom().contains(r) && pending(
                refs,
                cache,
                k,
            )[r] == cache[r],
        forall|i: int|
            0 <= i < k ==> pending(refs, cache, k).dom().contains(#[trigger] refs[i]),
        to_validate(refs, pending(refs, cache, refs.len() as int), k) == Seq::<RefView>::empty(),
        pending(refs, pending(refs, cache, refs.len() as int), k) == pending(
            refs,
            cache,
            refs.len() as int,
        ),
    decreases k,
{
    lemma_known(refs, cache, refs.len() as int);
    lemma_known(refs, cache, k);
    if k > 0 {
        law_starting_again_starts_nothing(refs, cache, k - 1);
        let all = pending(refs, cache, refs.len() as int);
        assert(all.dom().contains(refs[k - 1]));
    }
}

proof fn lemma_known(refs: Seq<RefView>, cache: Map<RefView, StateView>, k: int)
    requires
        0 <= k <= refs.len(),
    ensures
        forall|r: RefView| #[trigger]
            cache.dom().contains(r) ==> pending(refs, cache, k).dom().contains(r) && pending(
                refs,
                cache,
                k,
            )[r] == cache[r],
        forall|i: int|
            0 <= i < k ==> pending(refs, cache, k).dom().contains(#[trigger] refs[i]),
    decreases k,
{
    if k > 0 {
        lemma_known(refs, cache, k - 1);
    }
}

proof fn lemma_started(refs: Seq<RefView>, cache: Map<RefView, StateView>, k: int)
    requires
        0 <= k <= refs.len(),
    ensures
        forall|i: int|
            0 <= i < to_validate(refs, cache, k).len() ==> {
                &&& !cache.dom().contains(#[trigger] to_validate(refs, cache, k)[i])
                &&& pending(refs, cache, k).dom().contains(to_validate(refs, cache, k)[i])
            },
        forall|i: int, j: int|
            0 <= i < j < to_validate(refs, cache, k).len() ==> #[trigger] to_validate(
                refs,
                cache,
                k,
            )[i] != #[trigger] to_validate(refs, cache, k)[j],
    decreases k,
{
    if k > 0 {
        lemma_started(refs, cache, k - 1);
        lemma_known(refs, cache, k - 1);
        let rest = to_validate(refs, cache, k - 1);
        let all = to_validate(refs, cache, k);
        assert forall|i: int| 0 <= i < all.len() implies {
            &&& !cache.dom().contains(#[trigger] all[i])
            &&& pending(refs, cache, k).dom().contains(all[i])
        } by {
            if i < rest.len() {
                assert(all[i] == rest[i]);
            }
        }
        assert forall|i: int, j: int| 0 <= i < j < all.len() implies #[trigger] all[i]
            != #[trigger] all[j] by {
            assert(all[i] == rest[i]);
            if j < rest.len() {
                assert(all[j] == rest[j]);
            }
        }
    }
}

/// What a GitHub client says of a reference.
#[derive(Debug, PartialEq)]
pub enum ValidationResult {
    ValidWithData(ValidatedRefData),
    ValidNoData,
    Invalid,
}

/// Records in the cache what a client said of a reference.
pub fn record_validation(
    cache: &mut GitHubValidationCache,
    reference: GitHubRef,
    result: ValidationResult,
)
    ensures
        final(cache)@ == old(cache)@.insert(
            reference@,
            match result {
                ValidationResult::ValidWithData(d) => StateView::Valid(Some(d@)),
                ValidationResult::ValidNoData => StateView::Valid(None),
                ValidationResult::Invalid => StateView::Invalid,
            },
        ),
{
    match result {
        ValidationResult::ValidWithData(d) => cache.set_valid(reference, Some(d)),
        ValidationResult::ValidNoData => cache.set_valid(reference, None),
        ValidationResult::Invalid => cache.set_invalid(reference),
    }
}

// ---------------------------------------------------------------------------
// Suggestions
// ---------------------------------------------------------------------------

/// The running number of autocomplete fetches: a fetch waits a moment before it starts, and
/// only the latest one does.
#[derive(Debug, Clone, Copy, PartialEq, Eq, Structural)]
pub struct FetchGeneration {
    pub current: u64,
}

impl FetchGeneration {
    /// A keystroke asks for a fetch: it gets the next number.
    pub fn begin(&mut self) -> (r: u64)
        ensures
            r == (if old(self).current == u64::MAX {
                0
            } else {
                old(self).current + 1
            }),
            final(self).current == r,
    {
        self.current = if self.current == u64::MAX {
            0
        } else {
            self.current + 1
        };
        self.current
    }

    /// Whether no newer keystroke superseded a fetch.
    pub fn is_latest(&self, fetch: u64) -> (r: bool)
        ensures
            r == (fetch == self.current),
    {
        fetch == self.current
    }
}

/// What suggestions say.
pub open spec fn suggestions_view(ss: Seq<AutocompleteSuggestion>) -> Seq<SuggestionView> {
    ss.map_values(|s: AutocompleteSuggestion| s@)
}

/// The row of an issue or pull request.
pub open spec fn issue_row(i: IssueView) -> SuggestionView {
    SuggestionView::IssueOrPr {
        number: i.number,
        symbol: i.symbol(),
        status: i.status(),
        title: i.title,
    }
}

/// The row of a user.
pub open spec fn user_row(u: UserView) -> SuggestionView {
    SuggestionView::User { login: u.login, name: u.name }
}

/// The cache after the first `k` issues of a repository were fetched.
pub open spec fn primed(
    issues: Seq<IssueOrPr>,
    context: Option<(Seq<char>, Seq<char>)>,
    cache: Map<RefView, StateView>,
    k: int,
) -> Map<RefView, StateView>
    decreases k,
{
    match context {
        Some((owner, repo)) => if k <= 0 {
            cache
        } else {
            primed(issues, context, cache, k - 1).insert(
                RefView::Issue { owner, repo, number: issues[k - 1].number },
                StateView::Valid(Some(RefDataView::Issue(issues[k - 1]@))),
            )
        },
        None => cache,
    }
}

/// Turn fetched issues into suggestion rows, and prime the validation cache with their data
/// so hovers are instant, where the repository is known.
pub fn issue_suggestions(
    issues: &[IssueOrPr],
    context: Option<&GitHubContext>,
    cache: &mut GitHubValidationCache,
) -> (r: Vec<AutocompleteSuggestion>)
    ensures
        suggestions_view(r@) == issues@.map_values(|i: IssueOrPr| issue_row(i@)),
        final(cache)@ == primed(
            issues@,
            context_view(context),
            old(cache)@,
            issues@.len() as int,
        ),
{
    let ghost before = cache@;
    let mut out: Vec<AutocompleteSuggestion> = Vec::new();
    let mut i: usize = 0;
    while i < issues.len()
        invariant
            i <= issues@.len(),
            suggestions_view(out@) =~= issues@.subrange(0, i as int).map_values(
                |i: IssueOrPr| issue_row(i@),
            ),
            cache@ == primed(issues@, context_view(context), before, i as int),
        decreases issues@.len() - i,
    {
        let issue = &issues[i];
        match context {
            Some(ctx) => {
                cache.set_valid(
                    GitHubRef::Issue {
                        owner: ctx.owner.clone(),
                        repo: ctx.repo.clone(),
                        number: issue.number,
                    },
                    Some(ValidatedRefData::Issue(issue.clone())),
                );
            },
            None => {},
        }
        let row = AutocompleteSuggestion::IssueOrPr {
            number: issue.number,
            symbol: issue.symbol().to_owned(),
            status: issue.status(),
            title: issue.title.clone(),
        };
        let ghost said = row@;
        let ghost rows = out@;
        out.push(row);
        assert(suggestions_view(out@) =~= suggestions_view(rows).push(said));
        assert(said == issue_row(issues@[i as int]@));
        i += 1;
    }
    assert(issues@.subrange(0, i as int) =~= issues@);
    out
}

/// Turn fetched users into suggestion rows.
pub fn user_suggestions(users: &[MentionableUser]) -> (r: Vec<AutocompleteSuggestion>)
    ensures
        suggestions_view(r@) == users@.map_values(|u: MentionableUser| user_row(u@)),
{
    let mut out: Vec<AutocompleteSuggestion> = Vec::new();
    let mut i: usize = 0;
    while i < users.len()
        invariant
            i <= users@.len(),
            suggestions_view(out@) =~= users@.subrange(0, i as int).map_values(
                |u: MentionableUser| user_row(u@),
            ),
        decreases users@.len() - i,
    {
        let u = &users[i];
        let row = AutocompleteSuggestion::User {
            login: u.login.clone(),
            name: copy_text(&u.name),
        };
        let ghost said = row@;
        let ghost rows = out@;
        out.push(row);
        assert(suggestions_view(out@) =~= suggestions_view(rows).push(said));
        assert(said == user_row(users@[i as int]@));
        i += 1;
    }
    assert(users@.subrange(0, i as int) =~= users@);
    out
}

/// A fetched issue is known to exist, with the data of the last fetch of its number.
pub proof fn law_fetched_issues_are_known(
    issues: Seq<IssueOrPr>,
    owner: Seq<char>,
    repo: Seq<char>,
    cache: Map<RefView, StateView>,
    i: int,
)
    requires
        0 <= i < issues.len(),
        forall|j: int|
            i < j < issues.len() ==> (#[trigger] issues[j]).number != issues[i].number,
    ensures
        primed(issues, Some((owner, repo)), cache, issues.len() as int).dom().contains(
            RefView::Issue { owner, repo, number: issues[i].number },
        ),
        primed(issues, Some((owner, repo)), cache, issues.len() as int)[RefView::Issue {
            owner,
            repo,
            number: issues[i].number,
        }] == StateView::Valid(Some(RefDataView::Issue(issues[i]@))),
{
    lemma_primed(issues, owner, repo, cache, i, issues.len() as int);
}

proof fn lemma_primed(
    issues: Seq<IssueOrPr>,
    owner: Seq<char>,
    repo: Seq<char>,
    cache: Map<RefView, StateView>,
    i: int,
    k: int,
)
    requires
        0 <= i < k <= issues.len(),
        forall|j: int|
            i < j < issues.len() ==> (#[trigger] issues[j]).number != issues[i].number,
    ensures
        primed(issues, Some((owner, repo)), cache, k).dom().contains(
            RefView::Issue { owner, repo, number: issues[i].number },
        ),
        primed(issues, Some((owner, repo)), cache, k)[RefView::Issue {
            owner,
            repo,
            number: issues[i].number,
        }] == StateView::Valid(Some(RefDataView::Issue(issues[i]@))),
    decreases k,
{
    if k - 1 > i {
        lemma_primed(issues, owner, repo, cache, i, k - 1);
        assert(issues[k - 1].number != issues[i].number);
    }
}

/// One more reference is handed out where nothing is known of it, and is then pending; of a
/// known one nothing changes.
pub proof fn law_one_more_reference(
    refs: Seq<RefView>,
    cache: Map<RefView, StateView>,
    k: int,
)
    requires
        0 <= k < refs.len(),
    ensures
        ({
            let before = pending(refs, cache, k);
            let after = pending(refs, cache, k + 1);
            let r = refs[k];
            &&& before.dom().contains(r) ==> after == before && to_validate(refs, cache, k + 1)
                == to_validate(refs, cache, k)
            &&& !before.dom().contains(r) ==> after[r] == StateView::Pending && after.dom()
                == before.dom().insert(r) && to_validate(refs, cache, k + 1) == to_validate(
                refs,
                cache,
                k,
            ).push(r)
            &&& forall|other: RefView|
                other != r && before.dom().contains(other) ==> #[trigger] after[other]
                    == before[other]
        }),
{
}

/// A row of suggestions says what was fetched: number, title, symbol and status of an issue,
/// login and name of a user.
pub proof fn law_suggestion_rows(i: IssueView, u: UserView)
    ensures
        issue_row(i) matches SuggestionView::IssueOrPr { number, symbol, status, title } && number
            == i.number && title == i.title && symbol == i.symbol() && status == i.status(),
        user_row(u) matches SuggestionView::User { login, name } && login == u.login && name
            == u.name,
{
}

} // verus!
