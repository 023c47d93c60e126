//! References, their validation and suggestions.
use writ::github_sync::{
    issue_suggestions, record_validation, start_validations, user_suggestions, FetchGeneration,
    ValidationResult,
};
use writ::overlay::AutocompleteSuggestion;
use writ::refs::{detect_github_references_in_line, GitHubContext, GitHubRef};
use writ::validation::{
    GitHubValidationCache, IssueOrPr, IssueStatus, MentionableUser, ValidatedRefData,
    ValidationState,
};

fn user(name: &str) -> GitHubRef {
    GitHubRef::User { username: name.to_string() }
}

fn issue(number: u64, typename: &str, state: &str) -> IssueOrPr {
    IssueOrPr {
        typename: typename.to_string(),
        number,
        title: format!("Title {number}"),
        state: state.to_string(),
        state_reason: None,
        is_draft: false,
    }
}

#[test]
fn validations_start_once_per_reference() {
    let mut cache = GitHubValidationCache::new();
    cache.set_invalid(user("known"));
    let refs = [user("a"), user("known"), user("a"), user("b")];
    assert_eq!(start_validations(&refs, &mut cache), vec![user("a"), user("b")]);
    assert_eq!(cache.get(&user("a")), Some(ValidationState::Pending));
    assert_eq!(cache.get(&user("known")), Some(ValidationState::Invalid));
    assert!(start_validations(&refs, &mut cache).is_empty());
}

#[test]
fn validation_results_are_recorded() {
    let mut cache = GitHubValidationCache::new();
    let data = ValidatedRefData::Issue(issue(1, "Issue", "OPEN"));
    record_validation(&mut cache, user("a"), ValidationResult::ValidWithData(data.clone()));
    record_validation(&mut cache, user("b"), ValidationResult::ValidNoData);
    record_validation(&mut cache, user("c"), ValidationResult::Invalid);
    assert_eq!(cache.get(&user("a")), Some(ValidationState::Valid(Some(data))));
    assert_eq!(cache.get(&user("b")), Some(ValidationState::Valid(None)));
    assert_eq!(cache.get(&user("c")), Some(ValidationState::Invalid));
}

#[test]
fn fetched_issues_become_rows_and_prime_the_cache() {
    let mut cache = GitHubValidationCache::new();
    let issues = [issue(7, "Issue", "OPEN"), issue(8, "PullRequest", "MERGED")];
    let context = GitHubContext { owner: "o".to_string(), repo: "r".to_string() };
    let rows = issue_suggestions(&issues, Some(&context), &mut cache);
    assert_eq!(rows.len(), 2);
    assert_eq!(
        rows[0],
        AutocompleteSuggestion::IssueOrPr {
            number: 7,
            symbol: issues[0].symbol().to_string(),
            status: IssueStatus::Open,
            title: "Title 7".to_string(),
        }
    );
    assert!(matches!(
        &rows[1],
        AutocompleteSuggestion::IssueOrPr { status: IssueStatus::Merged, .. }
    ));
    let eight = GitHubRef::Issue { owner: "o".to_string(), repo: "r".to_string(), number: 8 };
    let known = ValidationState::Valid(Some(ValidatedRefData::Issue(issue(
        8,
        "PullRequest",
        "MERGED",
    ))));
    assert_eq!(cache.get(&eight), Some(known));

    let mut empty = GitHubValidationCache::new();
    assert_eq!(issue_suggestions(&issues, None, &mut empty).len(), 2);
    assert!(empty.get(&eight).is_none());
}

#[test]
fn fetched_users_become_rows() {
    let users = [MentionableUser { login: "ann".to_string(), name: None }];
    assert_eq!(
        user_suggestions(&users),
        vec![AutocompleteSuggestion::User { login: "ann".to_string(), name: None }]
    );
}

#[test]
fn only_the_latest_fetch_runs() {
    let mut generation = FetchGeneration { current: 0 };
    let first = generation.begin();
    let second = generation.begin();
    assert!(!generation.is_latest(first));
    assert!(generation.is_latest(second));
}

#[test]
fn issue_status_and_symbol() {
    let status = |typename, state| issue(1, typename, state).status();
    assert_eq!(status("Issue", "OPEN"), IssueStatus::Open);
    assert_eq!(status("Issue", "CLOSED"), IssueStatus::Closed);
    assert_eq!(status("PullRequest", "MERGED"), IssueStatus::Merged);
    let mut draft = issue(1, "PullRequest", "OPEN");
    draft.is_draft = true;
    assert_eq!(draft.status(), IssueStatus::Draft);
    assert!(draft.is_pr());
    let mut not_planned = issue(1, "Issue", "CLOSED");
    not_planned.state_reason = Some("NOT_PLANNED".to_string());
    assert_eq!(not_planned.status(), IssueStatus::ClosedNotPlanned);
}

#[test]
fn numbers_in_other_digits_are_no_references() {
    let context = GitHubContext { owner: "o".to_string(), repo: "r".to_string() };
    let detect = |line: &str| {
        let found = detect_github_references_in_line(line, 0, Some(&context), &[], &[]);
        found.iter().map(|m| m.byte_range.clone()).collect::<Vec<_>>()
    };
    assert!(detect("#\u{663}").is_empty());
    assert!(detect("GH-\u{663} and a/b#\u{663}").is_empty());
    // The other references of the line come back.
    assert_eq!(detect("#\u{663} #12 @user"), vec![8..13, 4..7]);
    assert_eq!(detect("#123"), vec![0..4]);
    assert!(detect("nothing here").is_empty());
}

#[test]
fn references_of_a_line_stand_apart() {
    let context = GitHubContext { owner: "o".to_string(), repo: "r".to_string() };
    let line = "a/b#5 @user #7 c/d@abcdef0 1234567 GH-9";
    let found = detect_github_references_in_line(line, 100, Some(&context), &[], &[]);
    assert_eq!(found.len(), 6);
    for (i, m) in found.iter().enumerate() {
        let text = &line[m.byte_range.start - 100..m.byte_range.end - 100];
        let (owner, repo) = match &m.reference {
            GitHubRef::Issue { owner, repo, .. } => (owner, repo),
            GitHubRef::Commit { owner, repo, .. } => (owner, repo),
            _ => continue,
        };
        assert_eq!(text.contains('/'), owner != "o" || repo != "r");
        for n in &found[i + 1..] {
            let (a, b) = (&m.byte_range, &n.byte_range);
            assert!(a.end <= b.start || b.end <= a.start);
        }
    }
    // Without a context only mentions and references with a slash come out.
    let found = detect_github_references_in_line(line, 0, None, &[], &[]);
    let texts: Vec<&str> = found.iter().map(|m| &line[m.byte_range.clone()]).collect();
    assert_eq!(texts, vec!["a/b#5", "c/d@abcdef0", "@user"]);
}

#[test]
fn earlier_patterns_win_over_later_ones() {
    let context = GitHubContext { owner: "o".to_string(), repo: "r".to_string() };
    let found = detect_github_references_in_line("a/b#5 b@c1234567", 0, Some(&context), &[], &[]);
    // `a/b#5` is one reference, not `#5` again.
    assert_eq!(found[0].byte_range, 0..5);
    assert_eq!(found.iter().filter(|m| m.byte_range.start < 5).count(), 1);
}
