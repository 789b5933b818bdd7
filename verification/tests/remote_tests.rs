use tickdown::remote::{
    created_issue, gh_issue_to_remote, gh_issues_to_remote, parse_datetime, GhComment, GhIssue, GitHubProvider,
    RemoteState, SyncError,
};

fn gh(number: u64, title: &str, state: &str, body: &str, updated: &str, created: &str, author: &str, comments: Option<Vec<GhComment>>) -> GhIssue {
    GhIssue {
        number,
        title: title.to_string(),
        state: state.to_string(),
        body: body.to_string(),
        updated_at: updated.to_string(),
        created_at: created.to_string(),
        author: author.to_string(),
        comments,
    }
}

fn ghc(author: &str, body: &str, created: &str) -> GhComment {
    GhComment { author: author.to_string(), body: body.to_string(), created_at: created.to_string() }
}

#[test]
fn test_parse_issue_list() {
    let list = vec![
        gh(1, "First issue", "OPEN", "Issue body", "2026-03-30T14:00:00Z", "2026-03-29T10:00:00Z", "user1", None),
        gh(2, "Closed issue", "CLOSED", "", "2026-03-30T15:00:00Z", "2026-03-28T08:00:00Z", "user2", None),
    ];
    let issues = gh_issues_to_remote(&list).unwrap();
    assert_eq!(issues.len(), 2);
    assert_eq!(issues[0].remote_id, "1");
    assert_eq!(issues[0].title, "First issue");
    assert_eq!(issues[0].state, RemoteState::Open);
    assert_eq!(issues[0].author, "user1");
    assert_eq!(issues[1].state, RemoteState::Closed);
    assert!(issues[0].comments.is_empty());
}

#[test]
fn test_parse_issue_detail_with_comments() {
    let detail = gh(
        42,
        "Feature request",
        "OPEN",
        "Please add this feature.",
        "2026-03-30T14:00:00Z",
        "2026-03-20T10:00:00Z",
        "requester",
        Some(vec![
            ghc("maintainer", "Good idea!", "2026-03-21T09:00:00Z"),
            ghc("requester", "Thanks!", "2026-03-22T11:00:00Z"),
        ]),
    );
    let issue = gh_issue_to_remote(&detail).unwrap();
    assert_eq!(issue.remote_id, "42");
    assert_eq!(issue.title, "Feature request");
    assert_eq!(issue.body, "Please add this feature.");
    assert_eq!(issue.author, "requester");
    assert_eq!(issue.comments.len(), 2);
    assert_eq!(issue.comments[0].author, "maintainer");
    assert_eq!(issue.comments[0].body, "Good idea!");
    assert_eq!(issue.comments[1].author, "requester");
    assert_eq!(issue.comments[0].created_at.minute.day, 21);
    assert_eq!(issue.comments[0].created_at.minute.hour, 9);
}

#[test]
fn test_parse_issue_detail_no_comments() {
    let detail = gh(1, "Simple", "CLOSED", "", "2026-01-01T00:00:00Z", "2026-01-01T00:00:00Z", "user", Some(vec![]));
    let issue = gh_issue_to_remote(&detail).unwrap();
    assert_eq!(issue.state, RemoteState::Closed);
    assert!(issue.body.is_empty());
    assert!(issue.comments.is_empty());
}

#[test]
fn test_parse_issue_list_empty() {
    let issues = gh_issues_to_remote(&vec![]).unwrap();
    assert!(issues.is_empty());
}

#[test]
fn test_unknown_state_is_closed() {
    let detail = gh(3, "S", "open", "", "2026-01-01T00:00:00Z", "2026-01-01T00:00:00Z", "u", None);
    assert_eq!(gh_issue_to_remote(&detail).unwrap().state, RemoteState::Closed);
}

#[test]
fn test_bad_dates_are_errors() {
    let bad_updated = gh(1, "T", "OPEN", "", "not a date", "2026-01-01T00:00:00Z", "u", None);
    let err = gh_issue_to_remote(&bad_updated).unwrap_err();
    assert_eq!(err.message(), "Failed to parse datetime: not a date");
    let bad_comment = gh(1, "T", "OPEN", "", "2026-01-01T00:00:00Z", "2026-01-01T00:00:00Z", "u", Some(vec![ghc("a", "b", "soon")]));
    assert!(matches!(gh_issue_to_remote(&bad_comment), Err(SyncError::BadDatetime(ref s)) if s == "soon"));
    let list = vec![gh(1, "T", "OPEN", "", "2026-01-01T00:00:00Z", "2026-01-01T00:00:00Z", "u", None), bad_updated];
    assert!(gh_issues_to_remote(&list).is_err());
}

#[test]
fn test_parse_datetime_converts_to_utc() {
    let t = parse_datetime("2026-03-30T16:00:00+02:00").unwrap();
    let u = parse_datetime("2026-03-30T14:00:00Z").unwrap();
    assert!(t.same_instant(&u));
    assert_eq!(t.text, "2026-03-30T14:00:00+00:00");
    assert_eq!(t.minute.hour, 14);
    assert!(parse_datetime("2026-13-01T00:00:00Z").is_err());
}

#[test]
fn test_created_issue_reads_number_and_time() {
    let c = created_issue(17, "2026-03-30T14:00:00Z").unwrap();
    assert_eq!(c.remote_id, "17");
    assert!(c.updated_at.same_instant(&parse_datetime("2026-03-30T14:00:00Z").unwrap()));
    assert!(created_issue(17, "").is_err());
}

#[test]
fn test_github_provider_name_and_repo() {
    let p = GitHubProvider::new("owner/repo");
    assert_eq!(p.name(), "github");
    assert_eq!(p.repo, "owner/repo");
}
