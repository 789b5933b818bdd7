use tickdown::metadata::{compute_content_hash, lower_hex_text, SyncMetadata};
use tickdown::remote::parse_datetime;
use tickdown::ticket::{Comment, Ticket, TicketId};
use tickdown::timestamp::Timestamp;

fn sample_metadata() -> SyncMetadata {
    SyncMetadata {
        provider: "github".to_string(),
        repo: "owner/repo".to_string(),
        remote_id: "42".to_string(),
        content_hash: "abc123".to_string(),
        remote_updated: parse_datetime("2026-03-30T14:00:00Z").unwrap(),
        comment_count: 5,
    }
}

fn ticket(frontmatter: Option<&str>, comments: Vec<Comment>) -> Ticket {
    Ticket {
        id: TicketId::new("LAW", 1),
        title: "Test".to_string(),
        status: Some("New".to_string()),
        frontmatter: frontmatter.map(|s| s.to_string()),
        preamble: String::new(),
        comments,
        is_closed: false,
    }
}

#[test]
fn test_from_frontmatter_valid() {
    let fm = "sync_provider: github\nsync_repo: owner/repo\nsync_issue: 42\nsync_hash: abc123\nsync_remote_updated: 2026-03-30T14:00:00+00:00\nsync_comment_count: 5";
    let meta = SyncMetadata::from_frontmatter(fm).unwrap();
    assert_eq!(meta.provider, "github");
    assert_eq!(meta.repo, "owner/repo");
    assert_eq!(meta.remote_id, "42");
    assert_eq!(meta.content_hash, "abc123");
    assert_eq!(meta.comment_count, 5);
    assert!(meta.remote_updated.same_instant(&parse_datetime("2026-03-30T14:00:00Z").unwrap()));
}

#[test]
fn test_from_frontmatter_missing_field() {
    let fm = "sync_provider: github\nsync_repo: owner/repo";
    assert!(SyncMetadata::from_frontmatter(fm).is_none());
}

#[test]
fn test_from_frontmatter_with_extra_fields() {
    let fm = "tags: important\nsync_provider: github\nsync_repo: owner/repo\nsync_issue: 1\nsync_hash: h\nsync_remote_updated: 2026-01-01T00:00:00+00:00\nsync_comment_count: 0\npriority: high";
    let meta = SyncMetadata::from_frontmatter(fm).unwrap();
    assert_eq!(meta.provider, "github");
    assert_eq!(meta.remote_id, "1");
}

#[test]
fn test_from_frontmatter_unreadable_values() {
    let bad_time = "sync_provider: g\nsync_repo: r\nsync_issue: 1\nsync_hash: h\nsync_remote_updated: yesterday\nsync_comment_count: 0";
    assert!(SyncMetadata::from_frontmatter(bad_time).is_none());
    let bad_count = "sync_provider: g\nsync_repo: r\nsync_issue: 1\nsync_hash: h\nsync_remote_updated: 2026-01-01T00:00:00Z\nsync_comment_count: -1";
    assert!(SyncMetadata::from_frontmatter(bad_count).is_none());
}

#[test]
fn test_from_frontmatter_last_line_wins_and_values_trimmed() {
    let fm = "sync_provider: old\nsync_repo:  r  \nsync_issue: 1\nsync_hash: h\nsync_remote_updated: 2026-01-01T00:00:00Z\nsync_comment_count: +3\nsync_provider:new";
    let meta = SyncMetadata::from_frontmatter(fm).unwrap();
    assert_eq!(meta.provider, "new");
    assert_eq!(meta.repo, "r");
    assert_eq!(meta.comment_count, 3);
}

#[test]
fn test_roundtrip() {
    let meta = sample_metadata();
    let fm = meta.to_frontmatter_string();
    let parsed = SyncMetadata::from_frontmatter(&fm).unwrap();
    assert_eq!(parsed.provider, meta.provider);
    assert_eq!(parsed.repo, meta.repo);
    assert_eq!(parsed.remote_id, meta.remote_id);
    assert_eq!(parsed.content_hash, meta.content_hash);
    assert_eq!(parsed.comment_count, meta.comment_count);
    assert!(parsed.remote_updated.same_instant(&meta.remote_updated));
}

#[test]
fn test_to_frontmatter_string_exact() {
    assert_eq!(
        sample_metadata().to_frontmatter_string(),
        "sync_provider: github\nsync_repo: owner/repo\nsync_issue: 42\nsync_hash: abc123\nsync_remote_updated: 2026-03-30T14:00:00+00:00\nsync_comment_count: 5"
    );
}

#[test]
fn test_merge_into_empty_frontmatter() {
    let meta = sample_metadata();
    let result = meta.merge_into_frontmatter(None);
    assert!(result.contains("sync_provider: github"));
    assert!(result.contains("sync_issue: 42"));
    assert_eq!(result, meta.to_frontmatter_string());
}

#[test]
fn test_merge_preserves_non_sync_fields() {
    let meta = sample_metadata();
    let existing = "tags: important\npriority: high\nsync_hash: old_hash\nsync_provider: old";
    let result = meta.merge_into_frontmatter(Some(existing));
    assert!(result.contains("tags: important"));
    assert!(result.contains("priority: high"));
    assert!(result.contains("sync_hash: abc123"));
    assert!(!result.contains("old_hash"));
    assert!(result.contains("sync_provider: github"));
    assert!(result.starts_with("tags: important\npriority: high\nsync_provider: github\n"));
}

#[test]
fn test_merge_of_only_sync_lines_gives_sync_lines() {
    let meta = sample_metadata();
    let result = meta.merge_into_frontmatter(Some("sync_hash: x\nsync_issue: 9"));
    assert_eq!(result, meta.to_frontmatter_string());
    let read = SyncMetadata::from_frontmatter(&result).unwrap();
    assert_eq!(read.content_hash, "abc123");
}

#[test]
fn test_compute_content_hash_consistent() {
    let t = ticket(Some("sync_hash: whatever"), vec![]);
    let h1 = compute_content_hash(&t, "New");
    let h2 = compute_content_hash(&t, "New");
    assert_eq!(h1, h2);
}

#[test]
fn test_compute_content_hash_exact_value() {
    let t = ticket(None, vec![]);
    assert_eq!(compute_content_hash(&t, "New"), "d1691dc2a808a2e9e515ec5387be6b7031abcd465b02e4165351d0270b1f3e32");
}

#[test]
fn test_compute_content_hash_excludes_frontmatter() {
    let t1 = ticket(Some("sync_hash: aaa"), vec![]);
    let t2 = ticket(Some("sync_hash: bbb"), vec![]);
    assert_eq!(compute_content_hash(&t1, "New"), compute_content_hash(&t2, "New"));
}

#[test]
fn test_compute_content_hash_changes_on_content_change() {
    let t1 = ticket(None, vec![]);
    let t2 = ticket(
        None,
        vec![Comment {
            author: "Lars".to_string(),
            timestamp: Some(Timestamp::new(2026, 1, 1, 10, 0).unwrap()),
            body: "New comment".to_string(),
        }],
    );
    assert_ne!(compute_content_hash(&t1, "New"), compute_content_hash(&t2, "New"));
}

#[test]
fn lower_hex_text_two_digits_per_byte() {
    assert_eq!(lower_hex_text(&vec![0x00, 0xab, 0x7f, 0xff, 0x09]), "00ab7fff09");
    assert_eq!(lower_hex_text(&vec![]), "");
}

#[test]
fn merging_again_replaces_the_earlier_sync_lines() {
    let first = sample_metadata();
    let mut second = sample_metadata();
    second.content_hash = "def456".to_string();
    second.comment_count = 7;
    let existing = "tags: important\nsync_hash: old_hash\npriority: high";
    let once = first.merge_into_frontmatter(Some(existing));
    let twice = second.merge_into_frontmatter(Some(&once));
    assert_eq!(twice, second.merge_into_frontmatter(Some(existing)));
    assert_eq!(twice.matches("tags: important").count(), 1);
    assert!(twice.starts_with("tags: important\npriority: high\nsync_provider: github\n"));
}
