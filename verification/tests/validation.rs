//! The cache of validated references.
use std::sync::{Arc, Mutex};
use writ::refs::GitHubRef;
use writ::validation::{
    GitHubValidationCache, IssueOrPr, MentionableUser, ValidatedRefData, ValidationState,
};

#[test]
fn test_cache_new_is_empty() {
    let cache = GitHubValidationCache::new();
    let ref_ = GitHubRef::Issue {
        owner: "rust-lang".to_string(),
        repo: "rust".to_string(),
        number: 123,
    };
    assert!(cache.get(&ref_).is_none());
    assert!(!cache.is_valid(&ref_));
}

#[test]
fn test_cache_mark_pending() {
    let mut cache = GitHubValidationCache::new();
    let ref_ = GitHubRef::Issue {
        owner: "rust-lang".to_string(),
        repo: "rust".to_string(),
        number: 123,
    };

    cache.mark_pending(ref_.clone());
    assert_eq!(cache.get(&ref_), Some(ValidationState::Pending));
    assert!(!cache.is_valid(&ref_));
}

#[test]
fn test_cache_set_result_valid() {
    let mut cache = GitHubValidationCache::new();
    let ref_ = GitHubRef::Issue {
        owner: "rust-lang".to_string(),
        repo: "rust".to_string(),
        number: 123,
    };

    let issue_data = ValidatedRefData::Issue(IssueOrPr {
        typename: "Issue".to_string(),
        number: 123,
        title: "Test issue".to_string(),
        state: "OPEN".to_string(),
        state_reason: None,
        is_draft: false,
    });
    cache.set_valid(ref_.clone(), Some(issue_data.clone()));
    assert_eq!(
        cache.get(&ref_),
        Some(ValidationState::Valid(Some(issue_data)))
    );
    assert!(cache.is_valid(&ref_));
}

#[test]
fn test_cache_set_valid_no_data() {
    let mut cache = GitHubValidationCache::new();
    let ref_ = GitHubRef::Commit {
        owner: "rust-lang".to_string(),
        repo: "rust".to_string(),
        sha: "abc1234".to_string(),
    };

    cache.set_valid(ref_.clone(), None);
    assert_eq!(cache.get(&ref_), Some(ValidationState::Valid(None)));
    assert!(cache.is_valid(&ref_));
}

#[test]
fn test_cache_set_invalid() {
    let mut cache = GitHubValidationCache::new();
    let ref_ = GitHubRef::Issue {
        owner: "rust-lang".to_string(),
        repo: "rust".to_string(),
        number: 123,
    };

    cache.set_invalid(ref_.clone());
    assert_eq!(cache.get(&ref_), Some(ValidationState::Invalid));
    assert!(!cache.is_valid(&ref_));
}

#[test]
fn test_cache_clear() {
    let mut cache = GitHubValidationCache::new();
    let ref_ = GitHubRef::Issue {
        owner: "rust-lang".to_string(),
        repo: "rust".to_string(),
        number: 123,
    };

    let issue_data = ValidatedRefData::Issue(IssueOrPr {
        typename: "Issue".to_string(),
        number: 123,
        title: "Test issue".to_string(),
        state: "OPEN".to_string(),
        state_reason: None,
        is_draft: false,
    });
    cache.set_valid(ref_.clone(), Some(issue_data));
    assert!(cache.is_valid(&ref_));

    cache.clear();
    assert!(cache.get(&ref_).is_none());
    assert!(!cache.is_valid(&ref_));
}

#[test]
fn test_cache_clone_shares_state() {
    let cache1 = Arc::new(Mutex::new(GitHubValidationCache::new()));
    let cache2 = cache1.clone();

    let ref_ = GitHubRef::User {
        username: "torvalds".to_string(),
    };

    let user_data = ValidatedRefData::User(MentionableUser {
        login: "torvalds".to_string(),
        name: Some("Linus Torvalds".to_string()),
    });
    cache1.lock().unwrap().set_valid(ref_.clone(), Some(user_data));

    // Both should see the same state
    assert!(cache1.lock().unwrap().is_valid(&ref_));
    assert!(cache2.lock().unwrap().is_valid(&ref_));
}
