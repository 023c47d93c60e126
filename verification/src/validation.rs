//! GitHub reference validation model and cache.
//!
//! Pure data types shared between the render path and a GitHub client: validated
//! issue/PR/user data plus the validation cache keyed by [`GitHubRef`].
use crate::marker::{copy_text, text_if_any};
use crate::refs::{GitHubRef, RefView};
use crate::text::str_eq;
use vstd::prelude::*;
use vstd::string::*;

verus! {

/// Issue/PR data.
#[derive(Debug, PartialEq, Eq)]
pub struct IssueOrPr {
    pub typename: String,
    pub number: u64,
    pub title: String,
    pub state: String,
    /// For issues: reason for closure (COMPLETED, NOT_PLANNED, REOPENED, or null)
    pub state_reason: Option<String>,
    /// For PRs: whether it's a draft
    pub is_draft: bool,
}

/// Display status for an issue or PR.
#[derive(Debug, Clone, Copy, PartialEq, Eq, Structural)]
pub enum IssueStatus {
    /// Open issue or PR
    Open,
    /// Draft PR
    Draft,
    /// Merged PR
    Merged,
    /// Closed issue (completed) or closed PR (merged handled separately)
    Closed,
    /// Closed issue (not planned) or closed PR (not merged)
    ClosedNotPlanned,
}

/// An [`IssueOrPr`] with its texts as characters.
pub struct IssueView {
    pub typename: Seq<char>,
    pub number: u64,
    pub title: Seq<char>,
    pub state: Seq<char>,
    pub state_reason: Option<Seq<char>>,
    pub is_draft: bool,
}

impl View for IssueOrPr {
    type V = IssueView;

    open spec fn view(&self) -> IssueView {
        IssueView {
            typename: self.typename@,
            number: self.number,
            title: self.title@,
            state: self.state@,
            state_reason: text_if_any(self.state_reason),
            is_draft: self.is_draft,
        }
    }
}

impl IssueView {
    /// It is a pull request (vs an issue).
    pub open spec fn is_pr(self) -> bool {
        self.typename == "PullRequest"@
    }

    /// The display status. An open PR may be a draft; one that is neither open nor
    /// merged was closed without a merge. An issue is open unless it is closed, and
    /// then it may be closed as not planned.
    pub open spec fn status(self) -> IssueStatus {
        if self.is_pr() {
            if self.state == "OPEN"@ {
                if self.is_draft {
                    IssueStatus::Draft
                } else {
                    IssueStatus::Open
                }
            } else if self.state == "MERGED"@ {
                IssueStatus::Merged
            } else {
                IssueStatus::ClosedNotPlanned
            }
        } else if self.state == "CLOSED"@ {
            if self.state_reason == Some("NOT_PLANNED"@) {
                IssueStatus::ClosedNotPlanned
            } else {
                IssueStatus::Closed
            }
        } else {
            IssueStatus::Open
        }
    }

    /// The symbol for this issue/PR type.
    pub open spec fn symbol(self) -> Seq<char> {
        if self.is_pr() {
            "⎇"@
        } else {
            "●"@
        }
    }
}

impl Clone for IssueOrPr {
    fn clone(&self) -> (r: Self)
        ensures
            r@ == self@,
    {
        IssueOrPr {
            typename: self.typename.clone(),
            number: self.number,
            title: self.title.clone(),
            state: self.state.clone(),
            state_reason: copy_text(&self.state_reason),
            is_draft: self.is_draft,
        }
    }
}

impl IssueOrPr {
    /// Returns true if this is a pull request (vs an issue).
    pub fn is_pr(&self) -> (r: bool)
        ensures
            r == self@.is_pr(),
    {
        str_eq(self.typename.as_str(), "PullRequest")
    }

    /// Get the display status for coloring.
    pub fn status(&self) -> (r: IssueStatus)
        ensures
            r == self@.status(),
    {
        let open = str_eq(self.state.as_str(), "OPEN");
        if self.is_pr() {
            if open {
                if self.is_draft {
                    IssueStatus::Draft
                } else {
                    IssueStatus::Open
                }
            } else if str_eq(self.state.as_str(), "MERGED") {
                IssueStatus::Merged
            } else {
                IssueStatus::ClosedNotPlanned
            }
        } else if str_eq(self.state.as_str(), "CLOSED") {
            let not_planned = match &self.state_reason {
                Some(reason) => str_eq(reason.as_str(), "NOT_PLANNED"),
                None => false,
            };
            if not_planned {
                IssueStatus::ClosedNotPlanned
            } else {
                IssueStatus::Closed
            }
        } else {
            IssueStatus::Open
        }
    }

    /// Get the unicode symbol for this issue/PR type.
    pub fn symbol(&self) -> (r: &'static str)
        ensures
            r@ == self@.symbol(),
    {
        if self.is_pr() {
            "⎇"  // merge/branch symbol
        } else {
            "●"  // filled circle
        }
    }
}

/// User data.
#[derive(Debug, PartialEq, Eq)]
pub struct MentionableUser {
    pub login: String,
    pub name: Option<String>,
}

/// A [`MentionableUser`] with its texts as characters.
pub struct UserView {
    pub login: Seq<char>,
    pub name: Option<Seq<char>>,
}

impl View for MentionableUser {
    type V = UserView;

    open spec fn view(&self) -> UserView {
        UserView { login: self.login@, name: text_if_any(self.name) }
    }
}

impl Clone for MentionableUser {
    fn clone(&self) -> (r: Self)
        ensures
            r@ == self@,
    {
        MentionableUser { login: self.login.clone(), name: copy_text(&self.name) }
    }
}

/// Validation state for a GitHub reference.
#[derive(Debug, PartialEq, Eq)]
pub enum ValidationState {
    /// Fetch has been spawned but not yet completed.
    Pending,
    /// Reference exists on GitHub, optionally with detailed data for hover popup.
    Valid(Option<ValidatedRefData>),
    /// Reference does not exist on GitHub.
    Invalid,
}

/// Detailed data from a validated reference.
#[derive(Debug, PartialEq, Eq)]
pub enum ValidatedRefData {
    /// Issue or PR with full details.
    Issue(IssueOrPr),
    /// User with full details.
    User(MentionableUser),
}

/// A [`ValidatedRefData`] with its texts as characters.
pub enum RefDataView {
    Issue(IssueView),
    User(UserView),
}

/// A [`ValidationState`] with its texts as characters.
pub enum StateView {
    Pending,
    Valid(Option<RefDataView>),
    Invalid,
}

impl View for ValidatedRefData {
    type V = RefDataView;

    open spec fn view(&self) -> RefDataView {
        match *self {
            ValidatedRefData::Issue(i) => RefDataView::Issue(i@),
            ValidatedRefData::User(u) => RefDataView::User(u@),
        }
    }
}

/// What optional data says.
pub open spec fn data_if_any(d: Option<ValidatedRefData>) -> Option<RefDataView> {
    match d {
        Some(d) => Some(d@),
        None => None,
    }
}

impl View for ValidationState {
    type V = StateView;

    open spec fn view(&self) -> StateView {
        match *self {
            ValidationState::Pending => StateView::Pending,
            ValidationState::Valid(d) => StateView::Valid(data_if_any(d)),
            ValidationState::Invalid => StateView::Invalid,
        }
    }
}

impl Clone for ValidatedRefData {
    fn clone(&self) -> (r: Self)
        ensures
            r@ == self@,
    {
        match self {
            ValidatedRefData::Issue(i) => ValidatedRefData::Issue(i.clone()),
            ValidatedRefData::User(u) => ValidatedRefData::User(u.clone()),
        }
    }
}

impl Clone for ValidationState {
    fn clone(&self) -> (r: Self)
        ensures
            r@ == self@,
    {
        match self {
            ValidationState::Pending => ValidationState::Pending,
            ValidationState::Valid(d) => match d {
                Some(d) => ValidationState::Valid(Some(d.clone())),
                None => ValidationState::Valid(None),
            },
            ValidationState::Invalid => ValidationState::Invalid,
        }
    }
}

/// Cache for GitHub reference validation results. It holds its entries itself: those who
/// share one hold it behind a shared lock.
#[derive(Debug)]
pub struct GitHubValidationCache {
    entries: Vec<(GitHubRef, ValidationState)>,
}

/// The entry at `i` is for `key`.
spec fn is_entry(entries: Seq<(GitHubRef, ValidationState)>, key: RefView, i: int) -> bool {
    0 <= i < entries.len() && entries[i].0@ == key
}

spec fn entries_map(entries: Seq<(GitHubRef, ValidationState)>) -> Map<RefView, StateView> {
    Map::new(
        |k: RefView| exists|i: int| is_entry(entries, k, i),
        |k: RefView| entries[choose|i: int| is_entry(entries, k, i)].1@,
    )
}

spec fn keys_differ(entries: Seq<(GitHubRef, ValidationState)>) -> bool {
    forall|i: int, j: int|
        0 <= i < j < entries.len() ==> (#[trigger] entries[i]).0@ != (#[trigger] entries[j]).0@
}

proof fn lemma_entry(entries: Seq<(GitHubRef, ValidationState)>, key: RefView, i: int)
    requires
        keys_differ(entries),
        is_entry(entries, key, i),
    ensures
        entries_map(entries).dom().contains(key),
        entries_map(entries)[key] == entries[i].1@,
{
    let j = choose|j: int| is_entry(entries, key, j);
    assert(is_entry(entries, key, j));
    assert(i == j);
}

impl View for GitHubValidationCache {
    type V = Map<RefView, StateView>;

    /// The state of each reference that is known.
    closed spec fn view(&self) -> Map<RefView, StateView> {
        entries_map(self.entries@)
    }
}

impl Default for GitHubValidationCache {
    fn default() -> (r: Self)
        ensures
            r@ == Map::<RefView, StateView>::empty(),
    {
        Self::new()
    }
}

impl GitHubValidationCache {
    #[verifier::type_invariant]
    spec fn inv(self) -> bool {
        keys_differ(self.entries@)
    }

    /// A cache that knows nothing.
    pub fn new() -> (r: Self)
        ensures
            r@ == Map::<RefView, StateView>::empty(),
    {
        let r = GitHubValidationCache { entries: Vec::new() };
        assert(r@ =~= Map::<RefView, StateView>::empty()) by {
            assert forall|k: RefView| !r@.dom().contains(k) by {
                assert forall|i: int| !is_entry(r.entries@, k, i) by {}
            }
        }
        r
    }

    /// Where the entry for a reference is.
    fn position(&self, ref_: &GitHubRef) -> (r: Option<usize>)
        ensures
            match r {
                Some(i) => is_entry(self.entries@, ref_@, i as int),
                None => forall|i: int| !is_entry(self.entries@, ref_@, i),
            },
    {
        let mut i: usize = 0;
        while i < self.entries.len()
            invariant
                i <= self.entries@.len(),
                forall|k: int| 0 <= k < i ==> !is_entry(self.entries@, ref_@, k),
            decreases self.entries@.len() - i,
        {
            if self.entries[i].0.same(ref_) {
                return Some(i);
            }
            assert(!is_entry(self.entries@, ref_@, i as int));
            i += 1;
        }
        None
    }

    /// Sets the state of a reference.
    fn put(&mut self, ref_: GitHubRef, state: ValidationState)
        ensures
            final(self)@ == old(self)@.insert(ref_@, state@),
    {
        proof {
            use_type_invariant(&*self);
        }
        let ghost before = self.entries@;
        let ghost key = ref_@;
        let ghost value = state@;
        let at = self.position(&ref_);
        let mut entries: Vec<(GitHubRef, ValidationState)> = Vec::new();
        std::mem::swap(&mut entries, &mut self.entries);
        match at {
            Some(i) => {
                entries.set(i, (ref_, state));
            },
            None => {
                entries.push((ref_, state));
            },
        }
        proof {
            let after = entries@;
            assert(keys_differ(after)) by {
                assert forall|i: int, j: int| 0 <= i < j < after.len() implies (
                #[trigger] after[i]).0@ != (#[trigger] after[j]).0@ by {
                    if at is None {
                        if j == before.len() {
                            assert(!is_entry(before, key, i));
                        }
                    } else {
                        assert(before[i].0@ != before[j].0@);
                    }
                }
            }
            assert(entries_map(after) =~= entries_map(before).insert(key, value)) by {
                let k0: int = match at {
                    Some(i) => i as int,
                    None => before.len() as int,
                };
                assert(is_entry(after, key, k0));
                lemma_entry(after, key, k0);
                let m = entries_map(before).insert(key, value);
                assert forall|k: RefView| #[trigger]
                    entries_map(after).dom().contains(k) == m.dom().contains(k) by {
                    if k != key {
                        if exists|i: int| is_entry(before, k, i) {
                            let i = choose|i: int| is_entry(before, k, i);
                            assert(is_entry(after, k, i));
                        }
                        if exists|i: int| is_entry(after, k, i) {
                            let i = choose|i: int| is_entry(after, k, i);
                            assert(is_entry(before, k, i));
                        }
                    }
                }
                assert forall|k: RefView| m.dom().contains(k) implies #[trigger] entries_map(
                    after,
                )[k] == m[k] by {
                    if k != key {
                        let i = choose|i: int| is_entry(before, k, i);
                        assert(is_entry(before, k, i));
                        assert(is_entry(after, k, i));
                        lemma_entry(after, k, i);
                        lemma_entry(before, k, i);
                    }
                }
            }
        }
        self.entries = entries;
    }

    /// The state of a reference, if it is known.
    pub fn get(&self, ref_: &GitHubRef) -> (r: Option<ValidationState>)
        ensures
            (match r {
                Some(s) => Some(s@),
                None => None,
            }) == (if self@.dom().contains(ref_@) {
                Some(self@[ref_@])
            } else {
                None
            }),
    {
        proof {
            use_type_invariant(self);
        }
        match self.position(ref_) {
            Some(i) => {
                proof {
                    lemma_entry(self.entries@, ref_@, i as int);
                }
                Some(self.entries[i].1.clone())
            },
            None => None,
        }
    }

    /// Presence check that doesn't clone the value — for the "already pending/validated?"
    /// guard that spawns validation only for new refs.
    pub fn contains(&self, ref_: &GitHubRef) -> (r: bool)
        ensures
            r == self@.dom().contains(ref_@),
    {
        proof {
            use_type_invariant(self);
        }
        match self.position(ref_) {
            Some(i) => {
                proof {
                    lemma_entry(self.entries@, ref_@, i as int);
                }
                true
            },
            None => false,
        }
    }

    /// A fetch was spawned for the reference.
    pub fn mark_pending(&mut self, ref_: GitHubRef)
        ensures
            final(self)@ == old(self)@.insert(ref_@, StateView::Pending),
    {
        self.put(ref_, ValidationState::Pending);
    }

    /// Set validation result as valid with optional detailed data.
    pub fn set_valid(&mut self, ref_: GitHubRef, data: Option<ValidatedRefData>)
        ensures
            final(self)@ == old(self)@.insert(ref_@, StateView::Valid(data_if_any(data))),
    {
        self.put(ref_, ValidationState::Valid(data));
    }

    /// Set validation result as invalid.
    pub fn set_invalid(&mut self, ref_: GitHubRef)
        ensures
            final(self)@ == old(self)@.insert(ref_@, StateView::Invalid),
    {
        self.put(ref_, ValidationState::Invalid);
    }

    /// Whether the reference is known to exist.
    pub fn is_valid(&self, ref_: &GitHubRef) -> (r: bool)
        ensures
            r == known_valid(self@, ref_@),
    {
        proof {
            use_type_invariant(self);
        }
        match self.position(ref_) {
            Some(i) => {
                proof {
                    lemma_entry(self.entries@, ref_@, i as int);
                }
                matches!(self.entries[i].1, ValidationState::Valid(_))
            },
            None => false,
        }
    }

    /// Forgets everything.
    pub fn clear(&mut self)
        ensures
            final(self)@ == Map::<RefView, StateView>::empty(),
    {
        self.entries = Vec::new();
        assert(self@ =~= Map::<RefView, StateView>::empty()) by {
            assert forall|k: RefView| !self@.dom().contains(k) by {
                assert forall|i: int| !is_entry(self.entries@, k, i) by {}
            }
        }
    }
}

/// The reference is known to exist.
pub open spec fn known_valid(cache: Map<RefView, StateView>, r: RefView) -> bool {
    cache.dom().contains(r) && cache[r] is Valid
}

/// What is set of a reference is what is known of it, and nothing else changes.
pub proof fn law_set_then_get(
    cache: Map<RefView, StateView>,
    r: RefView,
    other: RefView,
    state: StateView,
)
    requires
        other != r,
    ensures
        cache.insert(r, state).dom().contains(r),
        cache.insert(r, state)[r] == state,
        known_valid(cache.insert(r, state), r) == (state is Valid),
        cache.insert(r, state).dom().contains(other) == cache.dom().contains(other),
        known_valid(cache.insert(r, state), other) == known_valid(cache, other),
{
}

/// The status of an issue or PR, by its type, its state and the reason of its closure.
pub proof fn law_statuses(i: IssueView)
    ensures
        ({
            let pr = i.typename == "PullRequest"@;
            let open = i.state == seq!['O', 'P', 'E', 'N'];
            let merged = i.state == seq!['M', 'E', 'R', 'G', 'E', 'D'];
            let closed = i.state == seq!['C', 'L', 'O', 'S', 'E', 'D'];
            let not_planned = i.state_reason == Some("NOT_PLANNED"@);
            &&& pr && open && i.is_draft ==> i.status() == IssueStatus::Draft
            &&& pr && open && !i.is_draft ==> i.status() == IssueStatus::Open
            &&& pr && merged ==> i.status() == IssueStatus::Merged
            &&& pr && closed ==> i.status() == IssueStatus::ClosedNotPlanned
            &&& !pr && closed && not_planned ==> i.status() == IssueStatus::ClosedNotPlanned
            &&& !pr && closed && !not_planned ==> i.status() == IssueStatus::Closed
            &&& !pr && !closed ==> i.status() == IssueStatus::Open
            &&& pr ==> i.symbol() == seq!['⎇'] && i.is_pr()
            &&& !pr ==> i.symbol() == seq!['●'] && !i.is_pr()
        }),
{
    reveal_strlit("OPEN");
    reveal_strlit("MERGED");
    reveal_strlit("CLOSED");
    reveal_strlit("⎇");
    reveal_strlit("●");
    assert("OPEN"@ =~= seq!['O', 'P', 'E', 'N']);
    assert("MERGED"@ =~= seq!['M', 'E', 'R', 'G', 'E', 'D']);
    assert("CLOSED"@ =~= seq!['C', 'L', 'O', 'S', 'E', 'D']);
    assert("⎇"@ =~= seq!['⎇']);
    assert("●"@ =~= seq!['●']);
    assert("OPEN"@.len() == 4 && "MERGED"@.len() == 6 && "CLOSED"@.len() == 6);
    assert("MERGED"@[0] != "CLOSED"@[0]);
}

/// Only a reference whose state is valid, with or without data, is known to be valid.
pub proof fn law_valid_is_valid(cache: Map<RefView, StateView>, r: RefView)
    ensures
        known_valid(cache, r) <==> cache.dom().contains(r) && cache[r] is Valid,
{
}

} // verus!
