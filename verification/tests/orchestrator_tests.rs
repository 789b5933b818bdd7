use tickdown::metadata::{compute_content_hash, SyncMetadata};
use tickdown::orchestrator::{
    comments_to_push, count_states, escape_body, file_move, format_comment_for_push, plan_sync, pulled_ticket,
    sync_metadata_for, ticket_sync_state, tickets_with_prefix, unescape_body, with_sync_metadata, refreshed_ticket,
    FileMove, SyncOutcome, SyncStep, SyncSummary, TicketSyncState,
};
use tickdown::parser::parse_ticket;
use tickdown::remote::{parse_datetime, RemoteComment, RemoteIssue, RemoteState};
use tickdown::ticket::{Comment, Ticket, TicketId};
use tickdown::timestamp::{Timestamp, UtcInstant};

const OLD: &str = "2026-03-30T12:00:00Z";
const NEW: &str = "2026-03-30T14:00:00Z";

fn at(s: &str) -> UtcInstant {
    parse_datetime(s).unwrap()
}

fn tid(prefix: &str, number: u32) -> TicketId {
    TicketId { prefix: prefix.to_string(), number }
}

fn make_remote_issue(id: &str, title: &str, body: &str) -> RemoteIssue {
    RemoteIssue {
        remote_id: id.to_string(),
        title: title.to_string(),
        state: RemoteState::Open,
        body: body.to_string(),
        author: "remote-user".to_string(),
        created_at: at(NEW),
        comments: vec![],
        updated_at: at(NEW),
    }
}

fn plain_ticket(prefix: &str, number: u32, title: &str, comments: Vec<Comment>, is_closed: bool) -> Ticket {
    Ticket {
        id: tid(prefix, number),
        title: title.to_string(),
        status: Some("New".to_string()),
        frontmatter: None,
        preamble: String::new(),
        comments,
        is_closed,
    }
}

/// A ticket as read back after being written with this sync metadata.
fn synced_ticket(
    number: u32,
    title: &str,
    comments: Vec<Comment>,
    content_hash: String,
    remote_id: &str,
    remote_updated: &str,
    comment_count: usize,
    is_closed: bool,
) -> Ticket {
    let mut t = plain_ticket("TP", number, title, comments, is_closed);
    let meta = SyncMetadata {
        provider: "mock".to_string(),
        repo: "owner/repo".to_string(),
        remote_id: remote_id.to_string(),
        content_hash,
        remote_updated: at(remote_updated),
        comment_count,
    };
    t.frontmatter = Some(meta.to_frontmatter_string());
    parse_ticket(t.id.clone(), title, &t.to_canonical("New"), is_closed)
}

fn comment(author: &str, body: &str) -> Comment {
    Comment { author: author.to_string(), timestamp: Some(Timestamp::new(2026, 3, 30, 12, 0).unwrap()), body: body.to_string() }
}

fn plan(tickets: &Vec<Ticket>, remotes: &Vec<RemoteIssue>) -> Vec<SyncStep> {
    plan_sync(tickets, remotes, "TP", "mock", "owner/repo", "New")
}

// --- escaping ---

#[test]
fn test_escape_body_headings() {
    let body = "Some text\n## Heading\nMore text\n## Another".to_string();
    assert_eq!(escape_body(body), "Some text\n\\## Heading\nMore text\n\\## Another");
}

#[test]
fn test_escape_body_no_headings() {
    let body = "Normal text\nNo headings here\n# Single hash is fine".to_string();
    assert_eq!(escape_body(body.clone()), body);
}

#[test]
fn test_escape_body_indented_heading() {
    assert_eq!(escape_body("  ## Indented heading".to_string()), "  \\## Indented heading");
}

#[test]
fn test_unescape_body_roundtrip() {
    let body = "Text\n## Heading\n  ## Indented\nPlain".to_string();
    let escaped = escape_body(body.clone());
    assert_eq!(unescape_body(escaped), body);
}

#[test]
fn test_escape_body_empty() {
    assert_eq!(escape_body(String::new()), "");
}

#[test]
fn test_unescape_body_ignores_non_escaped() {
    let unescaped = unescape_body("Normal text\n## Heading\n\\## Escaped".to_string());
    assert!(unescaped.contains("## Heading"));
    assert!(unescaped.contains("## Escaped"));
    assert!(!unescaped.contains("\\## Escaped"));
    assert_eq!(unescaped, "Normal text\n## Heading\n## Escaped");
}

#[test]
fn test_escape_body_normalizes_line_endings() {
    assert_eq!(escape_body("a\r\n## b\n".to_string()), "a\n\\## b");
    assert_eq!(escape_body("##  x\n##".to_string()), "\\##  x\n##");
}

// --- pushed comment text ---

#[test]
fn test_format_comment_for_push() {
    let c = Comment {
        author: "Lars".to_string(),
        timestamp: Some(Timestamp::new(2026, 3, 21, 14, 30).unwrap()),
        body: "Did the thing.".to_string(),
    };
    let result = format_comment_for_push(&c);
    assert!(result.contains("*Lars (2026-03-21 14:30)*"));
    assert!(result.contains("Did the thing."));
    assert_eq!(result, "*Lars (2026-03-21 14:30)*\n\nDid the thing.");
}

#[test]
fn test_format_comment_for_push_without_timestamp() {
    let c = Comment { author: "Anon".to_string(), timestamp: None, body: "Just text".to_string() };
    let out = format_comment_for_push(&c);
    assert!(out.contains("*Anon*"));
    assert!(!out.contains("(20"));
    assert!(out.contains("Just text"));
}

#[test]
fn test_format_comment_for_push_empty_body() {
    let c = Comment {
        author: "Lars".to_string(),
        timestamp: Some(Timestamp::new(2026, 1, 1, 0, 0).unwrap()),
        body: String::new(),
    };
    let out = format_comment_for_push(&c);
    assert!(out.contains("*Lars (2026-01-01 00:00)*"));
    assert_eq!(out, "*Lars (2026-01-01 00:00)*");
}

#[test]
fn test_format_comment_for_push_unescapes_body() {
    let c = Comment { author: "A".to_string(), timestamp: None, body: "\\## Steps\n1. x".to_string() };
    assert_eq!(format_comment_for_push(&c), "*A*\n\n## Steps\n1. x");
}

// --- summary ---

#[test]
fn test_summary_print_runs() {
    let summary = SyncSummary {
        pulled: 1,
        pushed_new: 2,
        pushed_comments: 3,
        conflicts: 1,
        unchanged: 4,
        errors: vec!["boom".to_string()],
    };
    assert_eq!(
        summary.report_lines(),
        vec![
            "  Pulled: 1".to_string(),
            "  Pushed (new issues): 2".to_string(),
            "  Pushed (comments): 3".to_string(),
            "  Conflicts (skipped): 1".to_string(),
            "  Unchanged: 4".to_string(),
        ]
    );
    assert_eq!(summary.error_lines(), vec!["  Error: boom".to_string()]);
}

#[test]
fn test_summary_print_empty() {
    let summary = SyncSummary::default();
    assert!(summary.report_lines().is_empty());
    assert!(summary.error_lines().is_empty());
}

#[test]
fn test_summary_record_counts() {
    let mut s = SyncSummary::default();
    s.record(SyncOutcome::Pulled);
    s.record(SyncOutcome::Pulled);
    s.record(SyncOutcome::Unchanged);
    s.record(SyncOutcome::Failed("TP-1: no".to_string()));
    assert_eq!(s.pulled, 2);
    assert_eq!(s.unchanged, 1);
    assert_eq!(s.errors, vec!["TP-1: no".to_string()]);
    assert_eq!(s.report_lines(), vec!["  Pulled: 2".to_string(), "  Unchanged: 1".to_string()]);
}

// --- the sync plan ---

#[test]
fn test_pull_new_creates_ticket() {
    let issue = make_remote_issue("1", "First Issue", "Issue body text");
    let remotes = vec![issue];
    assert_eq!(plan(&vec![], &remotes), vec![SyncStep::Pull { ticket: None, remote: 0 }]);
    let t = pulled_ticket(None, tid("TP", 1), &remotes[0], "mock", "owner/repo", "New");
    assert_eq!(t.title, "First Issue");
    assert_eq!(t.comments.len(), 1);
    assert_eq!(t.comments[0].body, "Issue body text");
    assert_eq!(t.comments[0].author, "remote-user");
    let meta = SyncMetadata::from_frontmatter(t.frontmatter.as_ref().unwrap()).unwrap();
    assert_eq!(meta.remote_id, "1");
    assert_eq!(meta.comment_count, 1);
    assert_eq!(meta.content_hash, compute_content_hash(&t, "New"));
}

#[test]
fn test_pull_with_comments() {
    let mut issue = make_remote_issue("1", "With Comments", "Body");
    issue.comments = vec![RemoteComment { author: "commenter".to_string(), body: "Nice!".to_string(), created_at: at(NEW) }];
    let t = pulled_ticket(None, tid("TP", 1), &issue, "mock", "owner/repo", "New");
    assert_eq!(t.comments.len(), 2);
    assert_eq!(t.comments[0].body, "Body");
    assert_eq!(t.comments[1].author, "commenter");
    assert_eq!(t.comments[1].body, "Nice!");
    assert_eq!(t.comments[1].timestamp, Some(Timestamp::new(2026, 3, 30, 14, 0).unwrap()));
}

#[test]
fn test_pull_escapes_markdown_headings() {
    let issue = make_remote_issue("1", "Issue", "## Problem\nDetails\n## Steps\n1. do thing");
    let t = pulled_ticket(None, tid("TP", 1), &issue, "mock", "owner/repo", "New");
    let written = t.to_canonical("New");
    let read = parse_ticket(tid("TP", 1), "Issue", &written, false);
    assert!(read.comments[0].body.contains("\\## Problem"));
    assert!(read.comments[0].body.contains("\\## Steps"));
    assert_eq!(read.comments.len(), 1);
}

#[test]
fn test_push_new_local_ticket() {
    let tickets = vec![plain_ticket("TP", 1, "Local ticket", vec![], false)];
    assert_eq!(plan(&tickets, &vec![]), vec![SyncStep::PushNew { ticket: 0 }]);
    let written = with_sync_metadata(&tickets[0], "mock", "owner/repo", "999", &at(NEW), "New");
    let meta = SyncMetadata::from_frontmatter(written.frontmatter.as_ref().unwrap()).unwrap();
    assert_eq!(meta.remote_id, "999");
    assert_eq!(meta.provider, "mock");
}

#[test]
fn test_push_new_with_existing_comments_pushes_them() {
    let ticket = plain_ticket(
        "TP",
        1,
        "Local",
        vec![Comment { author: "Tester".to_string(), timestamp: None, body: "Initial note".to_string() }],
        false,
    );
    // The ticket as the store reads it back after writing it.
    let read = parse_ticket(tid("TP", 1), "Local", &ticket.to_canonical("New"), false);
    let tickets = vec![read];
    assert_eq!(plan(&tickets, &vec![]), vec![SyncStep::PushNew { ticket: 0 }]);
    let texts = comments_to_push(&tickets[0], 0);
    assert_eq!(texts.len(), 1);
    assert_eq!(texts[0], "*Tester*\n\nInitial note");
}

#[test]
fn test_unchanged_ticket_no_action() {
    let comments = vec![comment("remote-user", "Body")];
    let hash = compute_content_hash(&plain_ticket("TP", 1, "Synced", comments.clone(), false), "New");
    let tickets = vec![synced_ticket(1, "Synced", comments, hash, "1", NEW, 1, false)];
    let remotes = vec![make_remote_issue("1", "Synced", "Body")];
    assert_eq!(plan(&tickets, &remotes), vec![SyncStep::Unchanged { ticket: 0 }]);
}

#[test]
fn test_conflict_both_dirty() {
    let tickets = vec![synced_ticket(1, "Conflict ticket", vec![comment("user", "Local body")], "wrong_hash".to_string(), "1", OLD, 0, false)];
    let remotes = vec![make_remote_issue("1", "Conflict ticket", "Body")];
    assert_eq!(plan(&tickets, &remotes), vec![SyncStep::Conflict { ticket: 0, remote: 0 }]);
}

#[test]
fn test_pull_updates_existing_when_remote_dirty() {
    let comments = vec![comment("remote-user", "Old body")];
    let clean = compute_content_hash(&plain_ticket("TP", 1, "Old title", comments.clone(), false), "New");
    let tickets = vec![synced_ticket(1, "Old title", comments, clean, "1", OLD, 1, false)];
    let remotes = vec![make_remote_issue("1", "New title", "Updated body")];
    assert_eq!(plan(&tickets, &remotes), vec![SyncStep::Pull { ticket: Some(0), remote: 0 }]);
    let updated = pulled_ticket(Some(&tickets[0]), tickets[0].id.clone(), &remotes[0], "mock", "owner/repo", "New");
    assert_eq!(updated.title, "New title");
    assert_eq!(updated.comments[0].body, "Updated body");
    assert_eq!(updated.status.as_deref(), Some("New"));
}

#[test]
fn test_local_dirty_no_new_comments_updates_hash() {
    let tickets = vec![synced_ticket(1, "Title", vec![comment("user", "Body")], "wrong_hash".to_string(), "1", OLD, 1, false)];
    let mut remote = make_remote_issue("1", "Title", "Body");
    remote.updated_at = at(OLD);
    let remotes = vec![remote];
    assert_eq!(plan(&tickets, &remotes), vec![SyncStep::RefreshHash { ticket: 0 }]);
    let meta = sync_metadata_for(&tickets[0], "mock", "owner/repo").unwrap();
    let refreshed = refreshed_ticket(&tickets[0], &meta, "New");
    let new_meta = SyncMetadata::from_frontmatter(refreshed.frontmatter.as_ref().unwrap()).unwrap();
    assert_ne!(new_meta.content_hash, "wrong_hash");
    assert_eq!(new_meta.content_hash, compute_content_hash(&refreshed, "New"));
    assert_eq!(new_meta.comment_count, 1);
}

#[test]
fn test_push_comments_on_existing_synced_ticket() {
    let comments = vec![comment("remote-user", "Original body"), comment("Tester", "Local follow-up")];
    let tickets = vec![synced_ticket(1, "Ticket", comments, "wrong_hash".to_string(), "1", OLD, 1, false)];
    let mut remote = make_remote_issue("1", "Ticket", "Original body");
    remote.updated_at = at(OLD);
    let remotes = vec![remote];
    assert_eq!(plan(&tickets, &remotes), vec![SyncStep::PushComments { ticket: 0, remote: 0 }]);
    let texts = comments_to_push(&tickets[0], 1);
    assert_eq!(texts.len(), 1);
    assert!(texts[0].contains("Tester"));
    assert!(texts[0].contains("Local follow-up"));
    let written = with_sync_metadata(&tickets[0], "mock", "owner/repo", "1", &at(NEW), "New");
    let meta = SyncMetadata::from_frontmatter(written.frontmatter.as_ref().unwrap()).unwrap();
    assert_eq!(meta.comment_count, 2);
}

#[test]
fn test_pull_remote_closed_moves_to_done() {
    let comments = vec![comment("remote-user", "Body")];
    let clean = compute_content_hash(&plain_ticket("TP", 1, "Ticket", comments.clone(), false), "New");
    let tickets = vec![synced_ticket(1, "Ticket", comments, clean, "1", OLD, 1, false)];
    let mut remote = make_remote_issue("1", "Ticket", "Body");
    remote.state = RemoteState::Closed;
    let remotes = vec![remote];
    assert_eq!(plan(&tickets, &remotes), vec![SyncStep::Pull { ticket: Some(0), remote: 0 }]);
    let updated = pulled_ticket(Some(&tickets[0]), tickets[0].id.clone(), &remotes[0], "mock", "owner/repo", "New");
    assert!(updated.is_closed);
    assert_eq!(file_move(tickets[0].is_closed, updated.is_closed), FileMove::ToDone);
}

#[test]
fn test_pull_remote_reopened_moves_from_done() {
    let comments = vec![comment("remote-user", "Body")];
    let clean = compute_content_hash(&plain_ticket("TP", 1, "Ticket", comments.clone(), true), "New");
    let tickets = vec![synced_ticket(1, "Ticket", comments, clean, "1", OLD, 1, true)];
    let remotes = vec![make_remote_issue("1", "Ticket", "Body")];
    assert_eq!(plan(&tickets, &remotes), vec![SyncStep::Pull { ticket: Some(0), remote: 0 }]);
    let updated = pulled_ticket(Some(&tickets[0]), tickets[0].id.clone(), &remotes[0], "mock", "owner/repo", "New");
    assert!(!updated.is_closed);
    assert_eq!(file_move(true, false), FileMove::FromDone);
    assert_eq!(file_move(true, true), FileMove::Stay);
}

#[test]
fn test_remote_issue_deleted_skips_ticket() {
    let clean = compute_content_hash(&plain_ticket("TP", 1, "Orphaned", vec![], false), "New");
    let tickets = vec![synced_ticket(1, "Orphaned", vec![], clean, "42", NEW, 0, false)];
    assert_eq!(plan(&tickets, &vec![]), vec![SyncStep::RemoteMissing { ticket: 0 }]);
}

#[test]
fn test_other_provider_metadata_treated_as_unsynced() {
    let foreign = SyncMetadata {
        provider: "jira".to_string(),
        repo: "other/proj".to_string(),
        remote_id: "J-1".to_string(),
        content_hash: "h".to_string(),
        remote_updated: at(NEW),
        comment_count: 0,
    };
    let mut t = plain_ticket("TP", 1, "Foreign", vec![], false);
    t.frontmatter = Some(foreign.to_frontmatter_string());
    let tickets = vec![t];
    assert!(sync_metadata_for(&tickets[0], "mock", "owner/repo").is_none());
    assert_eq!(plan(&tickets, &vec![]), vec![SyncStep::PushNew { ticket: 0 }]);
    let written = with_sync_metadata(&tickets[0], "mock", "owner/repo", "999", &at(NEW), "New");
    let fm = written.frontmatter.as_ref().unwrap();
    assert!(fm.contains("sync_provider: mock"));
    assert!(!fm.contains("sync_provider: jira"));
}

#[test]
fn test_plan_orders_synced_then_remote_only_then_unsynced_and_skips_other_prefixes() {
    let clean = compute_content_hash(&plain_ticket("TP", 1, "S", vec![], false), "New");
    let tickets = vec![
        plain_ticket("XX", 5, "Other project", vec![], false),
        plain_ticket("TP", 2, "Local", vec![], false),
        synced_ticket(1, "S", vec![], clean, "7", NEW, 0, false),
    ];
    let remotes = vec![make_remote_issue("8", "Remote only", ""), make_remote_issue("7", "S", "")];
    assert_eq!(
        plan(&tickets, &remotes),
        vec![
            SyncStep::Unchanged { ticket: 2 },
            SyncStep::Pull { ticket: None, remote: 0 },
            SyncStep::PushNew { ticket: 1 },
        ]
    );
}

#[test]
fn test_plan_duplicate_ids_last_one_counts() {
    let clean1 = compute_content_hash(&plain_ticket("TP", 1, "A", vec![], false), "New");
    let clean2 = compute_content_hash(&plain_ticket("TP", 2, "B", vec![], false), "New");
    let tickets = vec![
        synced_ticket(1, "A", vec![], clean1, "7", NEW, 0, false),
        synced_ticket(2, "B", vec![], clean2, "7", NEW, 0, false),
    ];
    let remotes = vec![make_remote_issue("7", "first", ""), make_remote_issue("7", "second", "")];
    assert_eq!(plan(&tickets, &remotes), vec![SyncStep::Unchanged { ticket: 1 }]);
}

#[test]
fn test_written_ticket_is_clean_next_time() {
    let t = plain_ticket("TP", 3, "Fresh", vec![comment("A", "x")], false);
    let written = with_sync_metadata(&t, "mock", "owner/repo", "5", &at(NEW), "New");
    let read = parse_ticket(tid("TP", 3), "Fresh", &written.to_canonical("New"), false);
    let remotes = vec![make_remote_issue("5", "Fresh", "")];
    assert_eq!(plan(&vec![read], &remotes), vec![SyncStep::Unchanged { ticket: 0 }]);
}

// --- status ---

#[test]
fn test_show_status_counts_synced_dirty_unsynced() {
    let h1 = compute_content_hash(&plain_ticket("TP", 1, "Clean", vec![], false), "New");
    let tickets = vec![
        synced_ticket(1, "Clean", vec![], h1, "1", NEW, 0, false),
        synced_ticket(2, "Dirty", vec![], "wrong".to_string(), "2", NEW, 0, false),
        plain_ticket("TP", 3, "Unsynced", vec![], false),
        plain_ticket("XX", 1, "Elsewhere", vec![], false),
    ];
    let idx = tickets_with_prefix(&tickets, "TP");
    assert_eq!(idx, vec![0, 1, 2]);
    let states: Vec<TicketSyncState> = idx.iter().map(|&i| ticket_sync_state(&tickets[i], "mock", "owner/repo", "New")).collect();
    assert!(matches!(&states[0], TicketSyncState::Clean { remote_id } if remote_id == "1"));
    assert!(matches!(&states[1], TicketSyncState::Dirty { remote_id } if remote_id == "2"));
    assert!(matches!(&states[2], TicketSyncState::Unsynced));
    assert_eq!(count_states(&states), (2, 1, 1));
}

#[test]
fn escaped_body_lines_are_not_comment_headers() {
    let body = escape_body("Intro\n## Not a header\n  ## Also not\nEnd".to_string());
    let content = format!("# TP-1 T\n* Status: New\n\n## Alice (2026-03-30 12:00)\n{}\n", body);
    let t = parse_ticket(tid("TP", 1), "T", &content, false);
    assert_eq!(t.comments.len(), 1);
    assert_eq!(t.comments[0].author, "Alice");
    assert_eq!(t.comments[0].body, body);
}

#[test]
fn status_counts_other_providers_metadata_as_unsynced() {
    let h = compute_content_hash(&plain_ticket("TP", 1, "Clean", vec![], false), "New");
    let t = synced_ticket(1, "Clean", vec![], h, "1", NEW, 0, false);
    assert!(matches!(ticket_sync_state(&t, "mock", "owner/repo", "New"), TicketSyncState::Clean { .. }));
    assert!(matches!(ticket_sync_state(&t, "jira", "owner/repo", "New"), TicketSyncState::Unsynced));
    assert!(matches!(ticket_sync_state(&t, "mock", "other/repo", "New"), TicketSyncState::Unsynced));
    assert_eq!(plan(&vec![t], &vec![]), vec![SyncStep::RemoteMissing { ticket: 0 }]);
}
