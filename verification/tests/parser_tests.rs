use tickdown::parser::{clean_heading_title, parse_filename, parse_ticket};
use tickdown::ticket::TicketId;

fn id(prefix: &str, number: u32) -> TicketId {
    TicketId { prefix: prefix.into(), number }
}

#[test]
fn test_parse_filename_standard() {
    let (id, title) = parse_filename("LAW-2 TickDown Command Line Client Prototype").unwrap();
    assert_eq!(id.prefix, "LAW");
    assert_eq!(id.number, 2);
    assert_eq!(title, "TickDown Command Line Client Prototype");
}

#[test]
fn test_parse_filename_dash_separator() {
    let (id, title) = parse_filename("LAW-4-Something").unwrap();
    assert_eq!(id.prefix, "LAW");
    assert_eq!(id.number, 4);
    assert_eq!(title, "Something");
}

#[test]
fn test_parse_filename_no_title() {
    let (id, title) = parse_filename("BLK-1").unwrap();
    assert_eq!(id.prefix, "BLK");
    assert_eq!(id.number, 1);
    assert_eq!(title, "");
}

#[test]
fn test_parse_filename_zero_padded() {
    let (id, title) = parse_filename("IDEA-001").unwrap();
    assert_eq!(id.prefix, "IDEA");
    assert_eq!(id.number, 1);
    assert_eq!(title, "");
}

#[test]
fn test_parse_filename_double_space() {
    let (id, title) = parse_filename("FOO-1  VB").unwrap();
    assert_eq!(id.prefix, "FOO");
    assert_eq!(id.number, 1);
    assert_eq!(title, "VB");
}

#[test]
fn test_parse_filename_rejects_lowercase() {
    assert!(parse_filename("low-1 Title").is_none());
}

#[test]
fn test_parse_filename_edge_cases() {
    // digits glued to the title
    let (id, title) = parse_filename("LAW-12abc").unwrap();
    assert_eq!(id.number, 12);
    assert_eq!(title, "abc");
    // a non-ASCII decimal digit inside the number makes the number unreadable
    assert!(parse_filename("LAW-1\u{663} x").is_none());
    // a line break after the separator position is refused
    assert!(parse_filename("LAW-1 a\nb").is_none());
    // the separator itself may be a line break
    let (_, title) = parse_filename("LAW-1\nTitle").unwrap();
    assert_eq!(title, "Title");
    // number too large for u32
    assert!(parse_filename("LAW-99999999999 x").is_none());
    assert!(parse_filename("LAW- x").is_none());
}

#[test]
fn test_parse_ticket_standard() {
    let content = "# LAW-2 [TickDown] Command Line Client Prototype\n\
                    * Status: In Progress\n\
                    \n\
                    ## Lars Wallenborn (2019-03-16 20:45)\n\
                    Some comment body.\n";
    let ticket = parse_ticket(id("LAW", 2), "TickDown Command Line Client Prototype", content, false);
    assert_eq!(ticket.title, "Command Line Client Prototype");
    assert_eq!(ticket.status.as_deref(), Some("In Progress"));
    assert_eq!(ticket.comments.len(), 1);
    assert_eq!(ticket.comments[0].author, "Lars Wallenborn");
    assert!(ticket.comments[0].timestamp.is_some());
    assert_eq!(ticket.comments[0].body, "Some comment body.");
}

#[test]
fn test_parse_ticket_no_heading() {
    let content = "Just some text\n* more text\n";
    let ticket = parse_ticket(id("IDEA", 1), "", content, false);
    assert_eq!(ticket.title, "");
    assert_eq!(ticket.preamble, "Just some text\n* more text");
}

#[test]
fn test_parse_ticket_date_without_time() {
    let content = "# GTN-5 [Garten] Bambushecke\n\
                    \n\
                    ## Karl Heinz (2020-06-13)\n\
                    * Some notes\n";
    let ticket = parse_ticket(id("GTN", 5), "Baumbushecke", content, false);
    assert_eq!(ticket.title, "Bambushecke");
    assert_eq!(ticket.comments.len(), 1);
    let ts = ticket.comments[0].timestamp.unwrap();
    assert_eq!((ts.hour, ts.minute), (0, 0));
}

#[test]
fn test_parse_ticket_heading_id_mismatch() {
    let content = "# LAW-3 [Something] Data\n\
                    * Status: Waiting For\n";
    let ticket = parse_ticket(id("LAW", 4), "Something", content, false);
    assert_eq!(ticket.title, "Data");
    assert_eq!(ticket.id.number, 4);
}

#[test]
fn test_parse_ticket_multiple_comments() {
    let content = "# LAW-1 Title\n\
                    * Status: New\n\
                    \n\
                    ## Alice (2026-01-01 10:00)\n\
                    First comment.\n\
                    \n\
                    ## Bob (2026-01-02 11:00)\n\
                    Second comment.\n";
    let ticket = parse_ticket(id("LAW", 1), "Title", content, false);
    assert_eq!(ticket.comments.len(), 2);
    assert_eq!(ticket.comments[0].author, "Alice");
    assert_eq!(ticket.comments[0].body, "First comment.");
    assert_eq!(ticket.comments[1].author, "Bob");
    assert_eq!(ticket.comments[1].body, "Second comment.");
}

#[test]
fn test_parse_ticket_leading_whitespace_on_comment_header() {
    let content = "# LAW-1 Title\n* Status: New\n\n ## Lars (2026-01-01 10:00)\nBody text.\n";
    let ticket = parse_ticket(id("LAW", 1), "Title", content, false);
    assert_eq!(ticket.comments.len(), 1);
    assert_eq!(ticket.comments[0].author, "Lars");
    assert_eq!(ticket.comments[0].body, "Body text.");
}

#[test]
fn test_parse_ticket_multi_author_comment() {
    let content = "# LAW-1 Title\n\n## Alice / Bob (2026-01-01 10:00)\nJoint notes.\n";
    let ticket = parse_ticket(id("LAW", 1), "Title", content, false);
    assert_eq!(ticket.comments[0].author, "Alice / Bob");
}

#[test]
fn test_parse_ticket_comment_without_date() {
    let content = "# BLK-1 Title\n\n## ToDo\n* Item one\n* Item two\n";
    let ticket = parse_ticket(id("BLK", 1), "Title", content, false);
    assert_eq!(ticket.comments.len(), 1);
    assert_eq!(ticket.comments[0].author, "ToDo");
    assert!(ticket.comments[0].timestamp.is_none());
    assert_eq!(ticket.comments[0].body, "* Item one\n* Item two");
}

#[test]
fn test_parse_ticket_is_closed_flag() {
    let content = "# LAW-1 Title\n* Status: Done\n";
    let ticket = parse_ticket(id("LAW", 1), "Title", content, true);
    assert!(ticket.is_closed);
}

#[test]
fn test_parse_ticket_missing_status() {
    let content = "# LAW-1 Title\n\n## Author (2026-01-01)\nBody.\n";
    let ticket = parse_ticket(id("LAW", 1), "Title", content, false);
    assert!(ticket.status.is_none());
}

#[test]
fn test_parse_ticket_roundtrip() {
    let content = "# LAW-5 Feature\n\
                    * Status: In Progress\n\
                    \n\
                    ## Lars (2026-03-21 14:30)\n\
                    Did the thing.\n\
                    \n\
                    ## Lars (2026-03-22 09:00)\n\
                    Did more.\n";
    let ticket = parse_ticket(id("LAW", 5), "Feature", content, false);
    let canonical = ticket.to_canonical("New");
    assert_eq!(canonical, content);
}

#[test]
fn test_parse_ticket_frontmatter() {
    let content = "---\nsource: github\nrepo: https://example.com\n---\n# LAW-1 Synced\n* Status: New\n";
    let ticket = parse_ticket(id("LAW", 1), "Synced", content, false);
    assert_eq!(ticket.frontmatter.as_deref(), Some("source: github\nrepo: https://example.com"));
    assert_eq!(ticket.title, "Synced");
    let empty = parse_ticket(id("LAW", 1), "x", "---\n---\n# LAW-1 A\n", false);
    assert_eq!(empty.frontmatter.as_deref(), Some(""));
    // no closing line: no frontmatter, the lines are read as usual
    let open = parse_ticket(id("LAW", 1), "x", "---\n# LAW-1 A\n", false);
    assert!(open.frontmatter.is_none());
    assert_eq!(open.title, "A");
    assert_eq!(open.preamble, "---");
}

#[test]
fn test_parse_ticket_header_edge_cases() {
    // invalid calendar date: the date is still taken out of the author
    let t = parse_ticket(id("LAW", 1), "x", "## Lars (2026-02-30 10:00)\nb\n", false);
    assert_eq!(t.comments[0].author, "Lars");
    assert!(t.comments[0].timestamp.is_none());
    // non-ASCII digits match the pattern but cannot be read as a date
    let t = parse_ticket(id("LAW", 1), "x", "## Lars (\u{663}026-01-01)\n", false);
    assert_eq!(t.comments[0].author, "Lars");
    assert!(t.comments[0].timestamp.is_none());
    // a tab after the hashes opens a comment too; trailing blanks are dropped
    let t = parse_ticket(id("LAW", 1), "x", "##\tToDo  \n", false);
    assert_eq!(t.comments[0].author, "ToDo");
    // only blanks after the hashes: the author is one blank
    let t = parse_ticket(id("LAW", 1), "x", "##   \n", false);
    assert_eq!(t.comments.len(), 1);
    assert_eq!(t.comments[0].author, " ");
    let t = parse_ticket(id("LAW", 1), "x", "## \n", false);
    assert_eq!(t.comments.len(), 0);
    // parentheses that are not a date stay in the author
    let t = parse_ticket(id("LAW", 1), "x", "## A (B)\n", false);
    assert_eq!(t.comments[0].author, "A (B)");
    // lower-case status, repeated heading marks, several tags
    let t = parse_ticket(id("LAW", 1), "x", "# # LAW-1 [A] [B]Title\n*status:  Open \n", false);
    assert_eq!(t.title, "Title");
    assert_eq!(t.status.as_deref(), Some("Open"));
    // "* Status:" with nothing after it is preamble
    let t = parse_ticket(id("LAW", 1), "x", "* Status:\n", false);
    assert!(t.status.is_none());
    assert_eq!(t.preamble, "* Status:");
}

#[test]
fn test_clean_heading_title() {
    assert_eq!(
        clean_heading_title("LAW-2 [TickDown] Command Line Client Prototype"),
        "Command Line Client Prototype"
    );
    assert_eq!(clean_heading_title("GTN-5 [Garten] Bambushecke"), "Bambushecke");
    assert_eq!(clean_heading_title("nullteilerfrei.de"), "nullteilerfrei.de");
    assert_eq!(clean_heading_title("A-1x"), "x");
    assert_eq!(clean_heading_title("[a] b [c"), "b [c");
}
