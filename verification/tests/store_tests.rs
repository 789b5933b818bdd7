use std::path::PathBuf;
use tickdown::parser::parse_ticket;
use tickdown::store::{
    find_file, join_path, max_number, md_stem, sanitize_filename, sort_tickets, ticket_file, ticket_file_name,
    Located, StoreError, TicketStore,
};
use tickdown::ticket::{Comment, Ticket, TicketId};
use tickdown::timestamp::Timestamp;

fn make_ticket(prefix: &str, number: u32, title: &str, is_closed: bool) -> Ticket {
    Ticket {
        id: TicketId { prefix: prefix.to_string(), number },
        title: title.to_string(),
        status: Some("New".to_string()),
        frontmatter: None,
        preamble: String::new(),
        comments: vec![],
        is_closed,
    }
}

fn names(v: &[&str]) -> Vec<String> {
    v.iter().map(|s| s.to_string()).collect()
}

fn id(prefix: &str, number: u32) -> TicketId {
    TicketId { prefix: prefix.to_string(), number }
}

// --- sanitize_filename ---

#[test]
fn test_sanitize_clean_title() {
    assert_eq!(sanitize_filename("Normal Title"), "Normal Title");
}

#[test]
fn test_sanitize_forward_slash() {
    assert_eq!(sanitize_filename("Issues / Ideas for later"), "Issues - Ideas for later");
}

#[test]
fn test_sanitize_backslash() {
    assert_eq!(sanitize_filename("A\\B"), "A-B");
}

#[test]
fn test_sanitize_all_unsafe_chars() {
    assert_eq!(sanitize_filename(r#"/\:*?"<>|"#), "---------");
}

#[test]
fn test_sanitize_empty() {
    assert_eq!(sanitize_filename(""), "");
}

#[test]
fn test_sanitize_preserves_unicode() {
    assert_eq!(sanitize_filename("Löschkonzept"), "Löschkonzept");
}

#[test]
fn test_sanitize_mixed() {
    assert_eq!(sanitize_filename("What: A/B Test?"), "What- A-B Test-");
}

// --- TicketStore::new ---

#[test]
fn test_store_new() {
    let store = TicketStore::new("/notes");
    assert_eq!(PathBuf::from(&store.root), PathBuf::from("/notes"));
    assert_eq!(PathBuf::from(&store.done_dir), PathBuf::from("/notes/done"));
}

#[test]
fn test_join_path_separators() {
    assert_eq!(join_path("/notes", "done"), "/notes/done");
    assert_eq!(join_path("/notes/", "done"), "/notes/done");
    assert_eq!(join_path("", "done"), "done");
}

// --- ticket_path ---

#[test]
fn test_ticket_path_open() {
    let store = TicketStore::new("/notes");
    let ticket = make_ticket("LAW", 2, "My Title", false);
    assert_eq!(PathBuf::from(store.ticket_path(&ticket)), PathBuf::from("/notes/LAW-2 My Title.md"));
}

#[test]
fn test_ticket_path_closed() {
    let store = TicketStore::new("/notes");
    let ticket = make_ticket("LAW", 2, "My Title", true);
    assert_eq!(PathBuf::from(store.ticket_path(&ticket)), PathBuf::from("/notes/done/LAW-2 My Title.md"));
}

#[test]
fn test_ticket_path_empty_title() {
    let store = TicketStore::new("/notes");
    let ticket = make_ticket("IDEA", 1, "", false);
    assert_eq!(PathBuf::from(store.ticket_path(&ticket)), PathBuf::from("/notes/IDEA-1.md"));
}

#[test]
fn test_ticket_path_sanitizes_title() {
    let store = TicketStore::new("/notes");
    let ticket = make_ticket("LAW", 3, "Issues / Ideas", false);
    assert_eq!(PathBuf::from(store.ticket_path(&ticket)), PathBuf::from("/notes/LAW-3 Issues - Ideas.md"));
}

#[test]
fn test_ticket_file_name_forms() {
    assert_eq!(ticket_file_name(&make_ticket("LAW", 7, "A:B", false)), "LAW-7 A-B.md");
    assert_eq!(ticket_file_name(&make_ticket("LAW", 7, "", false)), "LAW-7.md");
}

// --- file names of the ticket directory ---

#[test]
fn test_scan_ignores_non_md_files() {
    let listing = names(&["LAW-1 First.md", "LAW-2 Second.txt", "readme.md"]);
    let found: Vec<(TicketId, String)> = listing.iter().filter_map(|n| ticket_file(n)).collect();
    assert_eq!(found.len(), 1);
    assert_eq!(found[0].0.to_string(), "LAW-1");
    assert_eq!(found[0].1, "First");
}

#[test]
fn test_md_stem_rules() {
    assert_eq!(md_stem("LAW-1 T.md"), Some("LAW-1 T".to_string()));
    assert_eq!(md_stem(".md"), None);
    assert_eq!(md_stem("x.txt"), None);
    assert_eq!(md_stem("a.b.md"), Some("a.b".to_string()));
    assert_eq!(md_stem("LAW-1.MD"), None);
}

#[test]
fn test_scan_sorted_by_prefix_then_number() {
    let listing = names(&["GDN-3 Third.md", "GDN-1 First.md", "AB-2 Other.md"]);
    let tickets: Vec<Ticket> = listing
        .iter()
        .filter_map(|n| ticket_file(n))
        .map(|(id, title)| parse_ticket(id, &title, "", false))
        .collect();
    let tickets = sort_tickets(tickets);
    assert_eq!(tickets.len(), 3);
    assert_eq!(tickets[0].id.prefix, "AB");
    assert_eq!(tickets[1].id.number, 1);
    assert_eq!(tickets[2].id.number, 3);
}

#[test]
fn test_sort_keeps_order_of_equal_ids() {
    let tickets = vec![make_ticket("B", 1, "x", false), make_ticket("A", 2, "first", false), make_ticket("A", 2, "second", true)];
    let sorted = sort_tickets(tickets);
    assert_eq!(sorted[0].title, "first");
    assert_eq!(sorted[1].title, "second");
    assert_eq!(sorted[2].id.prefix, "B");
}

// --- find_ticket_file ---

#[test]
fn test_find_ticket_file_found() {
    let store = TicketStore::new("/n");
    let path = store.find_ticket_file(&id("LAW", 1), &names(&["LAW-1 Title.md"]), &names(&[])).unwrap();
    assert_eq!(PathBuf::from(path).file_name().unwrap().to_str().unwrap(), "LAW-1 Title.md");
}

#[test]
fn test_find_ticket_file_in_done() {
    let store = TicketStore::new("/n");
    let path = store.find_ticket_file(&id("LAW", 1), &names(&["LAW-2 Other.md"]), &names(&["LAW-1 Closed.md"])).unwrap();
    assert!(path.contains("done"));
    assert_eq!(path, "/n/done/LAW-1 Closed.md");
}

#[test]
fn test_find_ticket_file_not_found() {
    let store = TicketStore::new("/n");
    let err = store.find_ticket_file(&id("LAW", 1), &names(&["LAW-2 X.md"]), &names(&[])).unwrap_err();
    assert_eq!(err.message(), "Ticket file for LAW-1 not found");
}

#[test]
fn test_read_ticket_prefers_root_over_done() {
    let store = TicketStore::new("/n");
    let open = names(&["LAW-1 Open.md"]);
    let done = names(&["LAW-1 Closed.md"]);
    assert_eq!(store.locate(&id("LAW", 1), &open, &done), Some(Located { closed: false, index: 0 }));
    assert_eq!(store.locate(&id("LAW", 1), &names(&[]), &done), Some(Located { closed: true, index: 0 }));
    assert_eq!(store.locate(&id("LAW", 9), &open, &done), None);
}

#[test]
fn test_find_file_matches_number_not_text() {
    let listing = names(&["LAW-10 Ten.md", "LAW-001 One.md"]);
    assert_eq!(find_file(&listing, &id("LAW", 1)), Some(1));
    assert_eq!(find_file(&listing, &id("LAW", 10)), Some(0));
    assert_eq!(find_file(&listing, &id("GDN", 1)), None);
}

#[test]
fn test_store_error_messages() {
    assert_eq!(StoreError::TicketNotFound("LAW-1".into()).message(), "Ticket LAW-1 not found");
    assert_eq!(StoreError::NotInOpen("LAW-1".into()).message(), "Ticket LAW-1 not found in open tickets");
    assert_eq!(StoreError::NotInDone("LAW-1".into()).message(), "Ticket LAW-1 not found in done/");
}

// --- next_number ---

#[test]
fn test_next_number_empty_dir() {
    let store = TicketStore::new("/n");
    assert_eq!(store.next_number("LAW", &names(&[]), &names(&[])), 1);
}

#[test]
fn test_next_number_increments() {
    let store = TicketStore::new("/n");
    assert_eq!(store.next_number("LAW", &names(&["LAW-3 Three.md", "LAW-1 One.md"]), &names(&[])), 4);
}

#[test]
fn test_next_number_includes_done() {
    let store = TicketStore::new("/n");
    assert_eq!(store.next_number("LAW", &names(&["LAW-2 Open.md"]), &names(&["LAW-5 Closed.md"])), 6);
}

#[test]
fn test_next_number_ignores_other_prefixes() {
    let store = TicketStore::new("/n");
    let open = names(&["LAW-10 Law.md", "GDN-20 Garden.md"]);
    assert_eq!(store.next_number("LAW", &open, &names(&[])), 11);
    assert_eq!(store.next_number("GDN", &open, &names(&[])), 21);
    assert_eq!(store.next_number("NEW", &open, &names(&[])), 1);
}

#[test]
fn test_max_number_ignores_non_md_and_text() {
    assert_eq!(max_number(&names(&["LAW-7 x.txt", "LAW-3.md", "notes.md"]), "LAW"), 3);
}

// --- write then read ---

#[test]
fn test_write_then_read_roundtrip() {
    let ts = Timestamp::new(2026, 3, 21, 14, 30).unwrap();
    let ticket = Ticket {
        id: id("LAW", 7),
        title: "Roundtrip".to_string(),
        status: Some("In Progress".to_string()),
        frontmatter: None,
        preamble: String::new(),
        comments: vec![
            Comment { author: "Alice".to_string(), timestamp: Some(ts), body: "First.".to_string() },
            Comment { author: "Bob".to_string(), timestamp: None, body: "Second.".to_string() },
        ],
        is_closed: false,
    };
    let text = ticket.to_canonical("New");
    let read_back = parse_ticket(id("LAW", 7), "Roundtrip", &text, false);
    assert_eq!(read_back.title, "Roundtrip");
    assert_eq!(read_back.status.as_deref(), Some("In Progress"));
    assert_eq!(read_back.comments.len(), 2);
    assert_eq!(read_back.comments[0].author, "Alice");
    assert_eq!(read_back.comments[0].body, "First.");
    assert_eq!(read_back.comments[0].timestamp, Some(ts));
    assert_eq!(read_back.comments[1].author, "Bob");
    assert_eq!(read_back.comments[1].body, "Second.");
    assert_eq!(read_back.to_canonical("New"), text);
}

#[test]
fn test_write_then_read_roundtrip_with_frontmatter() {
    let ticket = Ticket {
        id: id("LAW", 1),
        title: "Synced".to_string(),
        status: Some("New".to_string()),
        frontmatter: Some("source: github\nrepo: https://example.com".to_string()),
        preamble: String::new(),
        comments: vec![],
        is_closed: false,
    };
    let text = ticket.to_canonical("New");
    let read_back = parse_ticket(id("LAW", 1), "Synced", &text, false);
    assert_eq!(read_back.frontmatter.as_deref(), Some("source: github\nrepo: https://example.com"));
    assert_eq!(read_back.title, "Synced");
}

#[test]
fn test_write_with_comments_has_headers() {
    let ticket = Ticket {
        id: id("LAW", 1),
        title: "C".to_string(),
        status: None,
        frontmatter: None,
        preamble: String::new(),
        comments: vec![Comment {
            author: "Author".to_string(),
            timestamp: Some(Timestamp::new(2026, 1, 1, 10, 0).unwrap()),
            body: "Hello.".to_string(),
        }],
        is_closed: false,
    };
    let content = ticket.to_canonical("New");
    assert!(content.contains("## Author (2026-01-01 10:00)"));
    assert!(content.contains("Hello."));
}

#[test]
fn written_file_name_reads_back_as_the_ticket() {
    for (p, n, title, want) in [
        ("LAW", 7u32, "Fix: a/b ", "Fix- a-b"),
        ("A1", 0, "", ""),
        ("TD", 12, "  5 things", "5 things"),
    ] {
        let t = make_ticket(p, n, title, false);
        let name = ticket_file_name(&t);
        let (fid, ftitle) = ticket_file(&name).unwrap();
        assert_eq!(fid.prefix, p);
        assert_eq!(fid.number, n);
        assert_eq!(ftitle, want);
    }
}

#[test]
fn find_ticket_file_in_done_with_empty_root() {
    let store = TicketStore::new("/n");
    let path = store.find_ticket_file(&id("LAW", 1), &names(&[]), &names(&["LAW-1 Closed.md"])).unwrap();
    assert_eq!(path, "/n/done/LAW-1 Closed.md");
}
