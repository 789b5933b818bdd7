use tickdown::ticket::{Comment, Ticket, TicketId};
use tickdown::timestamp::Timestamp;

fn ts(y: i32, mo: u32, d: u32, h: u32, mi: u32) -> Timestamp {
    Timestamp::new(y, mo, d, h, mi).unwrap()
}

#[test]
fn test_parse_valid_id() {
    let id = TicketId::parse("LAW-2").unwrap();
    assert_eq!(id.prefix, "LAW");
    assert_eq!(id.number, 2);
}

#[test]
fn test_parse_id_with_digits_in_prefix() {
    let id = TicketId::parse("SO1-3").unwrap();
    assert_eq!(id.prefix, "SO1");
    assert_eq!(id.number, 3);
}

#[test]
fn test_parse_large_number() {
    let id = TicketId::parse("KMK-22").unwrap();
    assert_eq!(id.prefix, "KMK");
    assert_eq!(id.number, 22);
}

#[test]
fn test_parse_rejects_lowercase_prefix() {
    assert!(TicketId::parse("law-2").is_none());
}

#[test]
fn test_parse_rejects_no_dash() {
    assert!(TicketId::parse("LAW2").is_none());
}

#[test]
fn test_parse_rejects_empty_prefix() {
    assert!(TicketId::parse("-2").is_none());
}

#[test]
fn test_parse_rejects_non_numeric_number() {
    assert!(TicketId::parse("LAW-abc").is_none());
}

#[test]
fn test_parse_rejects_prefix_starting_with_digit() {
    assert!(TicketId::parse("1ABC-2").is_none());
}

#[test]
fn test_display() {
    let id = TicketId::new("LAW", 12);
    assert_eq!(id.to_string(), "LAW-12");
}

#[test]
fn test_parse_id_accepts_plus_sign_and_rejects_overflow() {
    let id = TicketId::parse("LAW-+5").unwrap();
    assert_eq!(id.number, 5);
    assert!(TicketId::parse("LAW-4294967296").is_none());
    assert_eq!(TicketId::parse("LAW-4294967295").unwrap().number, 4294967295);
    assert!(TicketId::parse("LAW-2-3").is_none());
}

fn plain(prefix: &str, number: u32, title: &str, status: Option<&str>) -> Ticket {
    Ticket {
        id: TicketId::new(prefix, number),
        title: title.to_string(),
        status: status.map(|s| s.to_string()),
        frontmatter: None,
        preamble: String::new(),
        comments: vec![],
        is_closed: false,
    }
}

#[test]
fn test_canonical_minimal() {
    let ticket = plain("LAW", 1, "Test", Some("New"));
    assert_eq!(ticket.to_canonical("New"), "# LAW-1 Test\n* Status: New\n");
}

#[test]
fn test_canonical_empty_title() {
    let ticket = plain("IDEA", 1, "", None);
    assert_eq!(ticket.to_canonical("New"), "# IDEA-1\n* Status: New\n");
}

#[test]
fn test_canonical_uses_default_status_when_none() {
    let ticket = plain("LAW", 1, "T", None);
    let out = ticket.to_canonical("In Progress");
    assert!(out.contains("* Status: In Progress\n"));
}

#[test]
fn test_canonical_preserves_explicit_status() {
    let ticket = plain("LAW", 1, "T", Some("Done"));
    let out = ticket.to_canonical("New");
    assert!(out.contains("* Status: Done\n"));
}

#[test]
fn test_canonical_with_preamble() {
    let mut ticket = plain("IDEA", 1, "", None);
    ticket.preamble = "Some old content\nMore lines".to_string();
    let out = ticket.to_canonical("New");
    assert_eq!(out, "# IDEA-1\n* Status: New\n\nSome old content\nMore lines\n");
}

#[test]
fn test_canonical_with_comment_and_timestamp() {
    let mut ticket = plain("LAW", 5, "Feature", Some("New"));
    ticket.comments = vec![Comment {
        author: "Lars".to_string(),
        timestamp: Some(ts(2026, 3, 21, 14, 30)),
        body: "Implemented the thing.".to_string(),
    }];
    let out = ticket.to_canonical("New");
    assert_eq!(
        out,
        "# LAW-5 Feature\n* Status: New\n\n## Lars (2026-03-21 14:30)\nImplemented the thing.\n"
    );
}

#[test]
fn test_canonical_comment_without_timestamp() {
    let mut ticket = plain("LAW", 1, "T", Some("New"));
    ticket.comments = vec![Comment {
        author: "Meeting".to_string(),
        timestamp: None,
        body: "Notes here.".to_string(),
    }];
    let out = ticket.to_canonical("New");
    assert!(out.contains("## Meeting\nNotes here.\n"));
}

#[test]
fn test_canonical_comment_with_empty_body() {
    let mut ticket = plain("LAW", 1, "T", Some("New"));
    ticket.comments = vec![Comment {
        author: "Lars".to_string(),
        timestamp: Some(ts(2026, 1, 1, 0, 0)),
        body: String::new(),
    }];
    let out = ticket.to_canonical("New");
    assert_eq!(out, "# LAW-1 T\n* Status: New\n\n## Lars (2026-01-01 00:00)\n");
}

#[test]
fn test_canonical_multiple_comments() {
    let mut ticket = plain("LAW", 1, "T", Some("New"));
    ticket.comments = vec![
        Comment { author: "A".to_string(), timestamp: Some(ts(2026, 1, 1, 10, 0)), body: "First.".to_string() },
        Comment { author: "B".to_string(), timestamp: Some(ts(2026, 1, 2, 11, 0)), body: "Second.".to_string() },
    ];
    let out = ticket.to_canonical("New");
    assert!(out.contains("## A (2026-01-01 10:00)\nFirst.\n\n## B (2026-01-02 11:00)\nSecond.\n"));
}

#[test]
fn test_canonical_with_frontmatter() {
    let mut ticket = plain("LAW", 1, "Test", Some("New"));
    ticket.frontmatter = Some("source: github\nrepo: https://github.com/user/repo".to_string());
    assert_eq!(
        ticket.to_canonical("New"),
        "---\nsource: github\nrepo: https://github.com/user/repo\n---\n# LAW-1 Test\n* Status: New\n"
    );
}

#[test]
fn test_canonical_with_empty_frontmatter() {
    let mut ticket = plain("LAW", 1, "Test", Some("New"));
    ticket.frontmatter = Some(String::new());
    assert_eq!(ticket.to_canonical("New"), "---\n---\n# LAW-1 Test\n* Status: New\n");
}

#[test]
fn test_canonical_without_frontmatter_unchanged() {
    let ticket = plain("LAW", 1, "Test", Some("New"));
    assert_eq!(ticket.to_canonical("New"), "# LAW-1 Test\n* Status: New\n");
}

#[test]
fn test_canonical_year_outside_four_digits() {
    let mut ticket = plain("LAW", 1, "T", Some("New"));
    ticket.comments = vec![
        Comment { author: "A".to_string(), timestamp: Some(ts(10000, 1, 1, 0, 5)), body: String::new() },
        Comment { author: "B".to_string(), timestamp: Some(ts(-1, 12, 31, 23, 59)), body: String::new() },
        Comment { author: "C".to_string(), timestamp: Some(ts(33, 2, 3, 4, 5)), body: String::new() },
    ];
    let out = ticket.to_canonical("New");
    assert!(out.contains("## A (+10000-01-01 00:05)\n"));
    assert!(out.contains("## B (-0001-12-31 23:59)\n"));
    assert!(out.contains("## C (0033-02-03 04:05)\n"));
}

#[test]
fn test_content_for_hash_excludes_frontmatter() {
    let mut ticket = plain("LAW", 1, "Test", Some("New"));
    ticket.frontmatter = Some("sync_hash: x".to_string());
    assert_eq!(ticket.content_for_hash("New"), "# LAW-1 Test\n* Status: New\n");
}

#[test]
fn test_timestamp_new_checks_calendar() {
    assert!(Timestamp::new(2024, 2, 29, 0, 0).is_some());
    assert!(Timestamp::new(2023, 2, 29, 0, 0).is_none());
    assert!(Timestamp::new(1900, 2, 29, 0, 0).is_none());
    assert!(Timestamp::new(2000, 2, 29, 0, 0).is_some());
    assert!(Timestamp::new(2026, 4, 31, 0, 0).is_none());
    assert!(Timestamp::new(2026, 1, 1, 24, 0).is_none());
    assert!(Timestamp::new(2026, 1, 1, 23, 60).is_none());
}

#[test]
fn id_text_reads_back_as_the_id() {
    for (p, n) in [("LAW", 2u32), ("A1", 0), ("ZZ9", u32::MAX)] {
        let id = TicketId::new(p, n);
        let back = TicketId::parse(&id.to_string()).unwrap();
        assert_eq!(back.prefix, p);
        assert_eq!(back.number, n);
    }
}
