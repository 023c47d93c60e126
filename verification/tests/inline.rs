//! Inline styles, references, URLs and inline math.
use ropey::Rope;
use std::ops::Range;
use writ::inline::{
    extract_all_inline_styles, github_refs_to_styled_regions, naked_urls_to_styled_regions,
    styles_in_range, StyledRegion,
};
use writ::parser::MarkdownParser;
use writ::refs::{
    detect_github_references_in_line, detect_inline_math, detect_naked_urls, GitHubContext,
    GitHubRef, NakedUrl,
};
use writ::validation::GitHubValidationCache;


fn get_styles(text: &str) -> Vec<StyledRegion> {
    let rope = Rope::from_str(text);
    let tree = MarkdownParser::default().parse_rope(&rope, None).unwrap();
    extract_all_inline_styles(&tree, &rope)
}

fn region(full: Range<usize>) -> StyledRegion {
    StyledRegion {
        content_range: full.clone(),
        full_range: full,
        ..Default::default()
    }
}

#[test]
fn test_styles_in_range_includes_enclosing_region() {
    // Enclosing region A spans a nested region B; a third region C sits
    // between B and the query point. Querying inside A but after B and C
    // must still return A (the earlier "walk back one" approach dropped it).
    let styles = vec![region(0..50), region(5..10), region(12..14)];
    let hit = styles_in_range(&styles, &(15..16));
    let ranges: Vec<_> = hit.iter().map(|s| s.full_range.clone()).collect();
    assert_eq!(ranges, vec![0..50]);
}

#[test]
fn test_styles_in_range_nested_pair() {
    let styles = vec![region(0..50), region(10..20)];
    let hit = styles_in_range(&styles, &(15..16));
    let ranges: Vec<_> = hit.iter().map(|s| s.full_range.clone()).collect();
    assert_eq!(ranges, vec![0..50, 10..20]);
}

#[test]
fn test_styles_in_range_excludes_non_overlapping() {
    let styles = vec![region(0..5), region(10..20)];
    assert!(styles_in_range(&styles, &(6..9)).is_empty());
}

#[test]
fn test_bold() {
    let styles = get_styles("**bold** text\n");
    assert_eq!(styles.len(), 1);
    assert!(styles[0].style.bold);
    assert_eq!(styles[0].full_range, 0..8);
    assert_eq!(styles[0].content_range, 2..6);
}

#[test]
fn test_italic() {
    let styles = get_styles("*italic* text\n");
    assert_eq!(styles.len(), 1);
    assert!(styles[0].style.italic);
    assert_eq!(styles[0].full_range, 0..8);
    assert_eq!(styles[0].content_range, 1..7);
}

#[test]
fn test_code() {
    let styles = get_styles("`code` text\n");
    assert_eq!(styles.len(), 1);
    assert!(styles[0].style.code);
    assert_eq!(styles[0].full_range, 0..6);
    assert_eq!(styles[0].content_range, 1..5);
}

#[test]
fn test_link() {
    let styles = get_styles("[text](http://example.com)\n");
    assert_eq!(styles.len(), 1);
    assert_eq!(styles[0].link_url, Some("http://example.com".to_string()));
    assert_eq!(styles[0].full_range, 0..26);
    // content_range should be the link text "text"
    assert_eq!(styles[0].content_range, 1..5);
}

#[test]
fn test_nested_bold_italic() {
    let styles = get_styles("***bold italic***\n");
    // Should have both bold and italic regions
    assert!(!styles.is_empty());
}

#[test]
fn test_multiple_lines() {
    let styles = get_styles("**bold**\n*italic*\n`code`\n");
    assert_eq!(styles.len(), 3);
    // Should be sorted by position
    assert!(styles[0].style.bold);
    assert!(styles[1].style.italic);
    assert!(styles[2].style.code);
}

#[test]
fn test_styles_in_range() {
    let styles = get_styles("**bold**\n*italic*\n`code`\n");

    // Line 1: bytes 0-8
    let line1_styles = styles_in_range(&styles, &(0..8));
    assert_eq!(line1_styles.len(), 1);
    assert!(line1_styles[0].style.bold);

    // Line 2: bytes 9-17
    let line2_styles = styles_in_range(&styles, &(9..17));
    assert_eq!(line2_styles.len(), 1);
    assert!(line2_styles[0].style.italic);
}

#[test]
fn test_blockquote_inline() {
    let styles = get_styles("> **bold** in quote\n");
    assert_eq!(styles.len(), 1);
    assert!(styles[0].style.bold);
}

#[test]
fn test_list_inline() {
    let styles = get_styles("- **bold** in list\n- *italic* too\n");
    assert_eq!(styles.len(), 2);
    assert!(styles[0].style.bold);
    assert!(styles[1].style.italic);
}

#[test]
fn test_strikethrough() {
    let styles = get_styles("~~hey~~\n");
    // Tree-sitter parses ~~hey~~ as nested strikethrough ~(~hey~)~
    // We skip the inner one and collect all delimiters recursively
    assert_eq!(styles.len(), 1);
    assert!(styles[0].style.strikethrough);
    // full_range is the entire ~~hey~~ (0..7)
    // content_range excludes all delimiters (2..5 for just "hey")
    assert_eq!(styles[0].full_range, 0..7);
    assert_eq!(styles[0].content_range, 2..5);
}

// GitHub reference detection tests

fn github_ctx() -> GitHubContext {
    GitHubContext {
        owner: "rust-lang".to_string(),
        repo: "rust".to_string(),
    }
}

#[test]
fn test_github_issue_ref() {
    let line = "See #123 for details";
    let ctx = github_ctx();
    let matches = detect_github_references_in_line(line, 0, Some(&ctx), &[], &[]);

    assert_eq!(matches.len(), 1);
    assert!(matches!(
        &matches[0].reference,
        GitHubRef::Issue { owner, repo, number }
        if owner == "rust-lang" && repo == "rust" && *number == 123
    ));
    assert_eq!(matches[0].byte_range, 4..8); // "#123"
}

#[test]
fn test_github_issue_at_start() {
    let line = "#456 is fixed";
    let ctx = github_ctx();
    let matches = detect_github_references_in_line(line, 0, Some(&ctx), &[], &[]);

    assert_eq!(matches.len(), 1);
    assert!(matches!(
        &matches[0].reference,
        GitHubRef::Issue { number, .. } if *number == 456
    ));
    assert_eq!(matches[0].byte_range, 0..4);
}

#[test]
fn test_github_gh_format() {
    let line = "Fixed in GH-789";
    let ctx = github_ctx();
    let matches = detect_github_references_in_line(line, 0, Some(&ctx), &[], &[]);

    assert_eq!(matches.len(), 1);
    assert!(matches!(
        &matches[0].reference,
        GitHubRef::Issue { number, .. } if *number == 789
    ));
}

#[test]
fn test_github_user_mention() {
    let line = "Thanks @torvalds for the review";
    let matches = detect_github_references_in_line(line, 0, None, &[], &[]);

    assert_eq!(matches.len(), 1);
    assert!(matches!(
        &matches[0].reference,
        GitHubRef::User { username } if username == "torvalds"
    ));
    assert_eq!(matches[0].byte_range, 7..16); // "@torvalds"
}

#[test]
fn test_github_cross_repo_issue() {
    let line = "See tokio-rs/tokio#1234";
    let matches = detect_github_references_in_line(line, 0, None, &[], &[]);

    assert_eq!(matches.len(), 1);
    assert!(matches!(
        &matches[0].reference,
        GitHubRef::Issue { owner, repo, number }
        if owner == "tokio-rs" && repo == "tokio" && *number == 1234
    ));
}

#[test]
fn test_github_sha_ref() {
    let line = "Fixed in a1b2c3d";
    let ctx = github_ctx();
    let matches = detect_github_references_in_line(line, 0, Some(&ctx), &[], &[]);

    assert_eq!(matches.len(), 1);
    assert!(matches!(
        &matches[0].reference,
        GitHubRef::Commit { sha, .. } if sha == "a1b2c3d"
    ));
}

#[test]
fn test_github_cross_repo_commit() {
    let line = "See tokio-rs/tokio@abc1234";
    let matches = detect_github_references_in_line(line, 0, None, &[], &[]);

    assert_eq!(matches.len(), 1);
    assert!(matches!(
        &matches[0].reference,
        GitHubRef::Commit { owner, repo, sha }
        if owner == "tokio-rs" && repo == "tokio" && sha == "abc1234"
    ));
}

#[test]
fn test_github_skip_code_span() {
    let line = "Use `#123` in code";
    let ctx = github_ctx();
    // Simulate code span at bytes 4..10 ("`#123`")
    let code_range = 4..10;
    let matches = detect_github_references_in_line(
        line,
        0,
        Some(&ctx),
        std::slice::from_ref(&code_range),
        &[],
    );

    assert!(matches.is_empty(), "Should not match inside code span");
}

#[test]
fn test_github_ref_inside_link_is_skipped() {
    let ctx = GitHubContext {
        owner: "o".into(),
        repo: "r".into(),
    };
    // `#123` and `@user` inside a markdown link belong to the link, not a ref.
    let line = "see [fixes #123 by @bob](http://x)";
    let link = 4..24; // the `[...](...)` span
    let matches =
        detect_github_references_in_line(line, 0, Some(&ctx), &[], std::slice::from_ref(&link));
    assert!(matches.is_empty(), "refs inside a link must be skipped");
}

#[test]
fn test_email_domain_is_not_a_mention() {
    // `foo@example.com` must not match `@example` (no left word boundary).
    let matches = detect_github_references_in_line("mail foo@example.com", 0, None, &[], &[]);
    assert!(
        matches.is_empty(),
        "email domain should not become an @mention: {matches:?}"
    );
    // A real mention after a boundary still matches.
    let m2 = detect_github_references_in_line("hi @bob there", 0, None, &[], &[]);
    assert_eq!(m2.len(), 1);
}

#[test]
fn test_github_no_context_no_simple_refs() {
    let line = "Issue #123 and commit a1b2c3d";
    // Without context, simple #123 and bare SHA should not be detected
    let matches = detect_github_references_in_line(line, 0, None, &[], &[]);

    assert!(matches.is_empty(), "Simple refs need GitHub context");
}

#[test]
fn test_github_multiple_refs() {
    let line = "#1 #2 @user rust-lang/rust#3";
    let ctx = github_ctx();
    let matches = detect_github_references_in_line(line, 0, Some(&ctx), &[], &[]);

    // Should find: #1, #2, @user, rust-lang/rust#3
    assert_eq!(matches.len(), 4);
}

#[test]
fn test_github_line_byte_offset() {
    // Simulate a line that starts at byte 100 in the buffer
    let line = "See #123";
    let ctx = github_ctx();
    let matches = detect_github_references_in_line(line, 100, Some(&ctx), &[], &[]);

    assert_eq!(matches.len(), 1);
    // Byte range should be absolute (100 + 4 = 104, 100 + 8 = 108)
    assert_eq!(matches[0].byte_range, 104..108);
}

#[test]
fn test_github_ref_url() {
    let issue = GitHubRef::Issue {
        owner: "rust-lang".to_string(),
        repo: "rust".to_string(),
        number: 123,
    };
    assert_eq!(issue.url(), "https://github.com/rust-lang/rust/issues/123");

    let user = GitHubRef::User {
        username: "torvalds".to_string(),
    };
    assert_eq!(user.url(), "https://github.com/torvalds");

    let commit = GitHubRef::Commit {
        owner: "rust-lang".to_string(),
        repo: "rust".to_string(),
        sha: "abc1234".to_string(),
    };
    assert_eq!(
        commit.url(),
        "https://github.com/rust-lang/rust/commit/abc1234"
    );
}

#[test]
fn test_github_refs_to_styled_regions() {
    let line = "See #123";
    let ctx = github_ctx();
    let matches = detect_github_references_in_line(line, 0, Some(&ctx), &[], &[]);

    // Simulate validation - mark the issue as valid (no hover data needed for this test)
    let mut cache = GitHubValidationCache::new();
    cache.set_valid(
        GitHubRef::Issue {
            owner: "rust-lang".to_string(),
            repo: "rust".to_string(),
            number: 123,
        },
        None,
    );

    let regions = github_refs_to_styled_regions(&matches, &cache);
    assert_eq!(regions.len(), 1);
    assert_eq!(
        regions[0].link_url,
        Some("https://github.com/rust-lang/rust/issues/123".to_string())
    );
}

#[test]
fn test_github_unvalidated_ref_not_styled() {
    let line = "See #999999";
    let ctx = github_ctx();
    let matches = detect_github_references_in_line(line, 0, Some(&ctx), &[], &[]);

    // Empty cache - nothing validated
    let cache = GitHubValidationCache::new();
    let regions = github_refs_to_styled_regions(&matches, &cache);

    assert!(regions.is_empty(), "Unvalidated refs should not be styled");
}

// Naked URL detection tests

#[test]
fn test_naked_url_detection() {
    let line = "See https://example.com/page for details";
    let urls = detect_naked_urls(line, 0, &[], &[]);

    assert_eq!(urls.len(), 1);
    assert_eq!(urls[0].url, "https://example.com/page");
    assert_eq!(urls[0].byte_range, 4..28);
    assert!(urls[0].github_ref.is_none());
}

#[test]
fn test_naked_url_skips_code_span() {
    let line = "Use `https://example.com` in code";
    // Simulate code span at bytes 4..25
    let code_range = 4..25;
    let urls = detect_naked_urls(line, 0, &[code_range], &[]);

    assert!(urls.is_empty(), "Should not match inside code span");
}

#[test]
fn test_naked_url_skips_markdown_link() {
    let line = "See [link](https://example.com) here";
    // Simulate link at bytes 4..31
    let link_range = 4..31;
    let urls = detect_naked_urls(line, 0, &[], &[link_range]);

    assert!(urls.is_empty(), "Should not match inside markdown link");
}

#[test]
fn test_naked_github_issue_url() {
    let line = "See https://github.com/rust-lang/rust/issues/123 for details";
    let urls = detect_naked_urls(line, 0, &[], &[]);

    assert_eq!(urls.len(), 1);
    assert!(matches!(
        &urls[0].github_ref,
        Some(GitHubRef::Issue { owner, repo, number })
        if owner == "rust-lang" && repo == "rust" && *number == 123
    ));
    assert_eq!(urls[0].byte_range, 4..48);
}

#[test]
fn test_naked_github_pr_url() {
    let line = "Fixed in https://github.com/tokio-rs/tokio/pull/456";
    let urls = detect_naked_urls(line, 0, &[], &[]);

    assert_eq!(urls.len(), 1);
    assert!(matches!(
        &urls[0].github_ref,
        Some(GitHubRef::Issue { owner, repo, number })
        if owner == "tokio-rs" && repo == "tokio" && *number == 456
    ));
}

#[test]
fn test_naked_github_compare_url() {
    let line = "Changes: https://github.com/rust-lang/rust/compare/v1.0...v2.0";
    let urls = detect_naked_urls(line, 0, &[], &[]);

    assert_eq!(urls.len(), 1);
    assert!(matches!(
        &urls[0].github_ref,
        Some(GitHubRef::Compare { owner, repo, base, head })
        if owner == "rust-lang" && repo == "rust" && base == "v1.0" && head == "v2.0"
    ));
}

#[test]
fn test_naked_github_file_url() {
    let line = "See https://github.com/rust-lang/rust/blob/abc1234def/src/main.rs#L10-L20";
    let urls = detect_naked_urls(line, 0, &[], &[]);

    assert_eq!(urls.len(), 1);
    assert!(matches!(
        &urls[0].github_ref,
        Some(GitHubRef::File { owner, repo, sha, path, lines })
        if owner == "rust-lang" && repo == "rust" && sha == "abc1234def"
           && path == "src/main.rs" && lines.as_deref() == Some("L10-L20")
    ));
}

#[test]
fn test_naked_github_file_url_no_lines() {
    let line = "File: https://github.com/owner/repo/blob/abc1234/path/to/file.rs";
    let urls = detect_naked_urls(line, 0, &[], &[]);

    assert_eq!(urls.len(), 1);
    assert!(matches!(
        &urls[0].github_ref,
        Some(GitHubRef::File { path, lines, .. })
        if path == "path/to/file.rs" && lines.is_none()
    ));
}

#[test]
fn test_non_github_url_has_no_ref() {
    let line = "See https://example.com/page";
    let urls = detect_naked_urls(line, 0, &[], &[]);

    assert_eq!(urls.len(), 1);
    assert!(urls[0].github_ref.is_none());
}

#[test]
fn test_invalid_urls_not_matched() {
    // URL without proper domain (no TLD)
    let line = "http://g is not a valid URL";
    let urls = detect_naked_urls(line, 0, &[], &[]);
    assert!(urls.is_empty(), "http://g should not match");

    // Just protocol with single char
    let line = "https://x should not match";
    let urls = detect_naked_urls(line, 0, &[], &[]);
    assert!(urls.is_empty(), "https://x should not match");

    // Domain without TLD
    let line = "http://localhost is common but no TLD";
    let urls = detect_naked_urls(line, 0, &[], &[]);
    assert!(
        urls.is_empty(),
        "http://localhost should not match (no TLD)"
    );
}

#[test]
fn test_valid_urls_matched() {
    // Standard domain
    let line = "Visit https://example.com for info";
    let urls = detect_naked_urls(line, 0, &[], &[]);
    assert_eq!(urls.len(), 1);
    assert_eq!(urls[0].url, "https://example.com");

    // Domain with path
    let line = "See http://foo.bar/path/to/page";
    let urls = detect_naked_urls(line, 0, &[], &[]);
    assert_eq!(urls.len(), 1);
    assert_eq!(urls[0].url, "http://foo.bar/path/to/page");

    // Domain with port
    let line = "Dev server at http://example.com:8080/api";
    let urls = detect_naked_urls(line, 0, &[], &[]);
    assert_eq!(urls.len(), 1);
    assert_eq!(urls[0].url, "http://example.com:8080/api");

    // Subdomain
    let line = "Check https://sub.domain.example.org/page";
    let urls = detect_naked_urls(line, 0, &[], &[]);
    assert_eq!(urls.len(), 1);
    assert_eq!(urls[0].url, "https://sub.domain.example.org/page");
}

#[test]
fn test_github_ref_from_url() {
    // Issue URL
    let issue = GitHubRef::from_url("https://github.com/rust-lang/rust/issues/123");
    assert!(matches!(
        issue,
        Some(GitHubRef::Issue { owner, repo, number })
        if owner == "rust-lang" && repo == "rust" && number == 123
    ));

    // PR URL
    let pr = GitHubRef::from_url("https://github.com/tokio-rs/tokio/pull/456");
    assert!(matches!(
        pr,
        Some(GitHubRef::Issue { number, .. })
        if number == 456
    ));

    // Compare URL
    let compare = GitHubRef::from_url("https://github.com/owner/repo/compare/v1.0...v2.0");
    assert!(matches!(
        compare,
        Some(GitHubRef::Compare { base, head, .. })
        if base == "v1.0" && head == "v2.0"
    ));

    // File URL
    let file = GitHubRef::from_url("https://github.com/owner/repo/blob/abc123/src/lib.rs#L5");
    assert!(matches!(
        file,
        Some(GitHubRef::File { sha, path, lines, .. })
        if sha == "abc123" && path == "src/lib.rs" && lines.as_deref() == Some("L5")
    ));

    // Non-GitHub URL
    let other = GitHubRef::from_url("https://example.com/page");
    assert!(other.is_none());
}

// short_display tests

#[test]
fn test_short_display_issue() {
    let issue = GitHubRef::Issue {
        owner: "rust-lang".to_string(),
        repo: "rust".to_string(),
        number: 123,
    };
    // Without context, shows full owner/repo
    assert_eq!(issue.short_display(None), "rust-lang/rust#123");

    // With matching context, omits owner/repo
    let ctx = GitHubContext {
        owner: "rust-lang".to_string(),
        repo: "rust".to_string(),
    };
    assert_eq!(issue.short_display(Some(&ctx)), "#123");

    // With different context, shows full owner/repo
    let other_ctx = GitHubContext {
        owner: "other".to_string(),
        repo: "repo".to_string(),
    };
    assert_eq!(issue.short_display(Some(&other_ctx)), "rust-lang/rust#123");
}

#[test]
fn test_short_display_user() {
    let user = GitHubRef::User {
        username: "torvalds".to_string(),
    };
    assert_eq!(user.short_display(None), "@torvalds");
}

#[test]
fn test_short_display_commit() {
    let commit = GitHubRef::Commit {
        owner: "rust-lang".to_string(),
        repo: "rust".to_string(),
        sha: "abc1234567890".to_string(),
    };
    // SHA should be truncated to 7 chars
    assert_eq!(commit.short_display(None), "rust-lang/rust@abc1234");

    // With matching context
    let ctx = GitHubContext {
        owner: "rust-lang".to_string(),
        repo: "rust".to_string(),
    };
    assert_eq!(commit.short_display(Some(&ctx)), "@abc1234");
}

#[test]
fn test_short_display_compare() {
    let compare = GitHubRef::Compare {
        owner: "rust-lang".to_string(),
        repo: "rust".to_string(),
        base: "v1.0".to_string(),
        head: "v2.0".to_string(),
    };
    assert_eq!(compare.short_display(None), "rust-lang/rust@v1.0...v2.0");

    // With matching context
    let ctx = GitHubContext {
        owner: "rust-lang".to_string(),
        repo: "rust".to_string(),
    };
    assert_eq!(compare.short_display(Some(&ctx)), "@v1.0...v2.0");
}

#[test]
fn test_short_display_file() {
    let file = GitHubRef::File {
        owner: "rust-lang".to_string(),
        repo: "rust".to_string(),
        sha: "abc1234567890".to_string(),
        path: "src/main.rs".to_string(),
        lines: Some("L10-L20".to_string()),
    };
    assert_eq!(
        file.short_display(None),
        "rust-lang/rust@abc1234:src/main.rs#L10-L20"
    );

    // With matching context
    let ctx = GitHubContext {
        owner: "rust-lang".to_string(),
        repo: "rust".to_string(),
    };
    assert_eq!(
        file.short_display(Some(&ctx)),
        "@abc1234:src/main.rs#L10-L20"
    );
}

#[test]
fn test_short_display_file_no_lines() {
    let file = GitHubRef::File {
        owner: "rust-lang".to_string(),
        repo: "rust".to_string(),
        sha: "abc1234".to_string(),
        path: "README.md".to_string(),
        lines: None,
    };
    assert_eq!(file.short_display(None), "rust-lang/rust@abc1234:README.md");
}

#[test]
fn test_url_and_short_display_for_new_variants() {
    let compare = GitHubRef::Compare {
        owner: "owner".to_string(),
        repo: "repo".to_string(),
        base: "main".to_string(),
        head: "feature".to_string(),
    };
    assert_eq!(
        compare.url(),
        "https://github.com/owner/repo/compare/main...feature"
    );

    let file = GitHubRef::File {
        owner: "owner".to_string(),
        repo: "repo".to_string(),
        sha: "abc1234".to_string(),
        path: "src/lib.rs".to_string(),
        lines: Some("L5".to_string()),
    };
    assert_eq!(
        file.url(),
        "https://github.com/owner/repo/blob/abc1234/src/lib.rs#L5"
    );
}

#[test]
fn test_naked_urls_to_styled_regions() {
    let urls = vec![
        NakedUrl {
            url: "https://example.com/page".to_string(),
            byte_range: 4..27,
            github_ref: None,
        },
        NakedUrl {
            url: "https://github.com/rust-lang/rust/issues/123".to_string(),
            byte_range: 30..74,
            github_ref: Some(GitHubRef::Issue {
                owner: "rust-lang".to_string(),
                repo: "rust".to_string(),
                number: 123,
            }),
        },
    ];

    // Empty cache - no validation yet
    let cache = GitHubValidationCache::new();
    let regions = naked_urls_to_styled_regions(&urls, &cache, None);

    assert_eq!(regions.len(), 2);

    // First URL - plain link, no display_text
    assert_eq!(regions[0].full_range, 4..27);
    assert_eq!(
        regions[0].link_url,
        Some("https://example.com/page".to_string())
    );
    assert!(regions[0].display_text.is_none());

    // Second URL - GitHub URL, not yet validated so no display_text
    assert_eq!(regions[1].full_range, 30..74);
    assert_eq!(
        regions[1].link_url,
        Some("https://github.com/rust-lang/rust/issues/123".to_string())
    );
    assert!(regions[1].display_text.is_none());
}

#[test]
fn test_naked_urls_with_validated_github_ref() {
    let github_ref = GitHubRef::Issue {
        owner: "rust-lang".to_string(),
        repo: "rust".to_string(),
        number: 123,
    };

    let urls = vec![NakedUrl {
        url: "https://github.com/rust-lang/rust/issues/123".to_string(),
        byte_range: 0..44,
        github_ref: Some(github_ref.clone()),
    }];

    // Mark the ref as validated (no hover data needed for this test)
    let mut cache = GitHubValidationCache::new();
    cache.set_valid(github_ref, None);

    // Without context - shows full owner/repo
    let regions = naked_urls_to_styled_regions(&urls, &cache, None);
    assert_eq!(regions.len(), 1);
    assert_eq!(
        regions[0].display_text,
        Some("rust-lang/rust#123".to_string())
    );

    // With matching context - omits owner/repo
    let ctx = GitHubContext {
        owner: "rust-lang".to_string(),
        repo: "rust".to_string(),
    };
    let regions = naked_urls_to_styled_regions(&urls, &cache, Some(&ctx));
    assert_eq!(regions.len(), 1);
    assert_eq!(regions[0].display_text, Some("#123".to_string()));
}

#[test]
fn inline_math_basic_and_content() {
    let line = "before $x^2 + 1$ after";
    let spans = detect_inline_math(line, 0, &[], &[]);
    assert_eq!(spans.len(), 1);
    assert_eq!(spans[0].full_range, 7..16);
    assert_eq!(&line[spans[0].content_range.clone()], "x^2 + 1");
}

#[test]
fn inline_math_rejects_currency() {
    // "$5 ... $10": opener followed by a digit is fine, but the closer is preceded by
    // whitespace ("$10" — the space before the second `$`), so no span matches.
    assert!(detect_inline_math("this $5 and $10 more", 0, &[], &[]).is_empty());
}

#[test]
fn inline_math_two_spans_and_offsets() {
    let line = "$a$ and $b+c$";
    let spans = detect_inline_math(line, 100, &[], &[]);
    assert_eq!(spans.len(), 2);
    assert_eq!(spans[0].full_range, 100..103);
    assert_eq!(spans[1].full_range, 108..113);
}

#[test]
fn inline_math_skips_display_and_escaped_and_code() {
    // `$$` display delimiter is not an inline opener.
    assert!(detect_inline_math("$$x$$", 0, &[], &[]).is_empty());
    // Escaped `\$` is literal.
    assert!(detect_inline_math("cost is \\$5 today", 0, &[], &[]).is_empty());
    // A `$` inside an inline-code range is skipped.
    let line = "`$x$` and $y$";
    let spans = detect_inline_math(line, 0, std::slice::from_ref(&(0..5)), &[]);
    assert_eq!(spans.len(), 1);
    assert_eq!(&line[spans[0].content_range.clone()], "y");
}

#[test]
fn inline_math_keeps_to_the_next_dollar_sign() {
    // A blank before the next dollar sign: that one opens a span of its own.
    let spans = detect_inline_math("$a $b$", 0, &[], &[]);
    assert_eq!(spans.len(), 1);
    assert_eq!(spans[0].full_range, 3..6);
    // An escaped dollar sign does not close.
    let spans = detect_inline_math("$a\\$b$", 0, &[], &[]);
    assert_eq!(spans[0].full_range, 0..6);
    // A closing dollar sign in display math does not count.
    assert!(detect_inline_math("$a$", 10, &[], &[12..13]).is_empty());
}

#[test]
fn naked_urls_ascend_and_stand_apart() {
    let line = "http://a.io/x, https://b.org and https://github.com/o/r.js/pull/7";
    let urls = detect_naked_urls(line, 100, &[], &[]);
    assert_eq!(urls.len(), 3);
    for (i, u) in urls.iter().enumerate() {
        assert_eq!(&line[u.byte_range.start - 100..u.byte_range.end - 100], u.url);
        assert!(i == 0 || urls[i - 1].byte_range.end <= u.byte_range.start);
    }
    assert_eq!(
        urls[2].github_ref,
        Some(GitHubRef::Issue { owner: "o".to_string(), repo: "r.js".to_string(), number: 7 })
    );
    assert!(detect_naked_urls("http://localhost/x", 0, &[], &[]).is_empty());
}

#[test]
fn issue_urls_read_back() {
    for number in [0, 9, 10, 123, u64::MAX] {
        let issue = GitHubRef::Issue {
            owner: "rust-lang".to_string(),
            repo: "a_b.c-d".to_string(),
            number,
        };
        assert_eq!(GitHubRef::from_url(&issue.url()), Some(issue.clone()));
        let pull = issue.url().replace("/issues/", "/pull/");
        assert_eq!(GitHubRef::from_url(&pull), Some(issue));
    }
    assert_eq!(
        GitHubRef::from_url("https://github.com/o/r/issues/18446744073709551616"),
        None
    );
}

#[test]
fn escaped_dollar_signs_open_and_close_no_math() {
    assert!(detect_inline_math("\\$a$", 0, &[], &[]).is_empty());
    let spans = detect_inline_math("$a\\$ b$", 0, &[], &[]);
    assert_eq!(spans.len(), 1);
}
