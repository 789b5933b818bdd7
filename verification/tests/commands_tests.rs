use tickdown::commands::{
    check_modify, check_new_project, list_filter, listed_status, listed_title, matching_tickets, new_ticket,
    parse_ticket_id, plan_file_renames, plan_project_rename, replace_all_text, replace_first_text, resolve_or_explain,
    rewrite_ids, shown_comment_heading, shown_heading, shown_status, ticket_matches, with_comment, contains,
    CommandError,
};
use tickdown::config::{Config, StatusConfig};
use tickdown::parser::parse_ticket;
use tickdown::ticket::{Comment, Ticket, TicketId};
use tickdown::timestamp::Timestamp;

fn config_with(projects: &[(&str, &str)]) -> Config {
    Config {
        default_author: "Tester".to_string(),
        notes_dir: ".".to_string(),
        statuses: StatusConfig { values: vec!["New".into(), "Done".into()], default: "New".to_string() },
        projects: projects.iter().map(|(n, p)| (n.to_string(), p.to_string())).collect(),
        sync: vec![],
        config_path: ".tickdown.toml".to_string(),
    }
}

fn names(v: &[&str]) -> Vec<String> {
    v.iter().map(|s| s.to_string()).collect()
}

fn read(name_id: (&str, u32), title: &str, content: &str, closed: bool) -> Ticket {
    parse_ticket(TicketId { prefix: name_id.0.to_string(), number: name_id.1 }, title, content, closed)
}

// --- create ---

#[test]
fn test_create_unknown_project() {
    let config = config_with(&[("TickDown", "TD")]);
    let err = resolve_or_explain(&config, "Unknown").unwrap_err();
    assert!(err.message().contains("Unknown project or prefix"));
}

#[test]
fn test_create_by_project_name() {
    let config = config_with(&[("TickDown", "TD")]);
    let prefix = resolve_or_explain(&config, "TickDown").unwrap();
    let now = Timestamp::new(2026, 3, 21, 14, 30).unwrap();
    let t = new_ticket(&config, &prefix, 1, "My first ticket", now);
    let content = t.to_canonical(&config.statuses.default);
    assert!(content.contains("# TD-1 My first ticket"));
    assert!(content.contains("* Status: New"));
    assert_eq!(content, "# TD-1 My first ticket\n* Status: New\n\n## Tester (2026-03-21 14:30)\n");
}

#[test]
fn test_create_by_prefix() {
    let config = config_with(&[("TickDown", "TD")]);
    assert_eq!(resolve_or_explain(&config, "TD").unwrap(), "TD");
}

// --- comment ---

#[test]
fn test_comment_appends_and_normalizes() {
    let t = read(("TD", 1), "T", "  # TD-9 [Proj] T\n\n## A (2020-06-13)\nx\n", false);
    let now = Timestamp::new(2026, 1, 2, 3, 4).unwrap();
    let t2 = with_comment(&t, "Tester", now, "hello");
    assert_eq!(
        t2.to_canonical("New"),
        "# TD-1 T\n* Status: New\n\n## A (2020-06-13 00:00)\nx\n\n## Tester (2026-01-02 03:04)\nhello\n"
    );
}

// --- create-project ---

#[test]
fn test_create_project_name_conflict() {
    let config = config_with(&[("Existing", "EX")]);
    let err = check_new_project(&config, "Existing", "NEW").unwrap_err();
    assert!(err.message().contains("already exists"));
}

#[test]
fn test_create_project_prefix_conflict() {
    let config = config_with(&[("Existing", "EX")]);
    let err = check_new_project(&config, "Another", "EX").unwrap_err();
    assert!(err.message().contains("already used"));
    assert_eq!(err.message(), "Prefix EX is already used by project Existing");
}

#[test]
fn test_create_project_invalid_prefix_lowercase() {
    let config = config_with(&[("Existing", "EX")]);
    let err = check_new_project(&config, "Bad", "bad").unwrap_err();
    assert!(err.message().contains("Invalid prefix"));
}

#[test]
fn test_create_project_invalid_prefix_empty() {
    let config = config_with(&[("Existing", "EX")]);
    assert!(check_new_project(&config, "Bad", "").is_err());
}

#[test]
fn test_create_project() {
    let config = config_with(&[("Existing", "EX")]);
    assert!(check_new_project(&config, "NewProject", "NP").is_ok());
    assert!(check_new_project(&config, "Digits", "N2").is_ok());
    assert!(check_new_project(&config, "Digits", "2N").is_err());
}

// --- modify ---

#[test]
fn test_modify_no_args() {
    let config = config_with(&[("TickDown", "TD"), ("Other", "OTH")]);
    let err = check_modify(&config, "TD-1", None, None).unwrap_err();
    assert!(err.message().contains("--project or --prefix"));
}

#[test]
fn test_modify_both_args() {
    let config = config_with(&[("TickDown", "TD"), ("Other", "OTH")]);
    let err = check_modify(&config, "TD-1", Some("Other"), Some("OTH")).unwrap_err();
    assert!(err.message().contains("not both"));
}

#[test]
fn test_modify_unknown_project() {
    let config = config_with(&[("TickDown", "TD"), ("Other", "OTH")]);
    let err = check_modify(&config, "TD-1", Some("Nonexistent"), None).unwrap_err();
    assert!(err.message().contains("Unknown project or prefix"));
}

#[test]
fn test_modify_invalid_id() {
    let config = config_with(&[("TickDown", "TD"), ("Other", "OTH")]);
    assert!(matches!(check_modify(&config, "bad", Some("Other"), None), Err(CommandError::InvalidTicketId(_))));
}

#[test]
fn test_modify_by_prefix_directly() {
    let config = config_with(&[("TickDown", "TD"), ("Other", "OTH")]);
    let (id, prefix) = check_modify(&config, "TD-1", None, Some("OTH")).unwrap();
    assert_eq!(id.to_string(), "TD-1");
    assert_eq!(prefix, "OTH");
    let (_, prefix) = check_modify(&config, "TD-1", Some("Other"), None).unwrap();
    assert_eq!(prefix, "OTH");
}

// --- close / rename ---

#[test]
fn test_close_invalid_id() {
    assert!(parse_ticket_id("bad").is_err());
    assert_eq!(parse_ticket_id("bad").unwrap_err().message(), "Invalid ticket ID: bad");
}

#[test]
fn test_rename_invalid_id() {
    assert!(parse_ticket_id("nope").is_err());
    assert_eq!(parse_ticket_id("TD-1").unwrap().number, 1);
}

// --- list ---

#[test]
fn test_list_unknown_project() {
    let config = config_with(&[("TickDown", "TD"), ("Other", "OTH")]);
    assert!(list_filter(&config, None, Some("Nonexistent")).is_err());
}

#[test]
fn test_list_filter_choices() {
    let config = config_with(&[("TickDown", "TD"), ("Other", "OTH")]);
    assert_eq!(list_filter(&config, None, Some("TickDown")).unwrap(), Some("TD".to_string()));
    assert_eq!(list_filter(&config, Some("XY"), None).unwrap(), Some("XY".to_string()));
    assert_eq!(list_filter(&config, Some("XY"), Some("Other")).unwrap(), Some("OTH".to_string()));
    assert_eq!(list_filter(&config, None, None).unwrap(), None);
}

#[test]
fn test_list_ticket_with_empty_title() {
    let t = read(("TD", 1), "", "# TD-1\n* Status: New\n", false);
    assert_eq!(listed_title(&t), "(no title)");
    assert_eq!(listed_status(&t), "New");
    let u = read(("TD", 2), "X", "", false);
    assert_eq!(listed_status(&u), "-");
    assert_eq!(listed_title(&u), "X");
}

// --- show ---

#[test]
fn test_show_headings() {
    let t = read(("TD", 2), "Title", "# TD-2 Title\n\n## Lars (2026-03-21 14:30)\nbody\n## Anon\n", false);
    assert_eq!(shown_heading(&t), "TD-2 Title");
    assert_eq!(shown_status(&t), "(no status)");
    assert_eq!(shown_comment_heading(&t.comments[0]), "Lars (2026-03-21 14:30)");
    assert_eq!(shown_comment_heading(&t.comments[1]), "Anon");
    let e = read(("TD", 3), "", "", false);
    assert_eq!(shown_heading(&e), "TD-3");
}

// --- rename-project ---

#[test]
fn test_rename_project_no_args() {
    let config = config_with(&[("TickDown", "TD"), ("Other", "OTH")]);
    let err = plan_project_rename(&config, "TickDown", None, None).unwrap_err();
    assert!(err.message().contains("--name or --prefix"));
}

#[test]
fn test_rename_project_prefix_conflict() {
    let config = config_with(&[("TickDown", "TD"), ("Other", "OTH")]);
    let err = plan_project_rename(&config, "TickDown", None, Some("OTH")).unwrap_err();
    assert!(err.message().contains("already used"));
}

#[test]
fn test_rename_project_name_conflict() {
    let config = config_with(&[("TickDown", "TD"), ("Other", "OTH")]);
    let err = plan_project_rename(&config, "TickDown", Some("Other"), None).unwrap_err();
    assert!(err.message().contains("already exists"));
}

#[test]
fn test_rename_project_unknown_project() {
    let config = config_with(&[("TickDown", "TD"), ("Other", "OTH")]);
    let err = plan_project_rename(&config, "Nonexistent", Some("Foo"), None).unwrap_err();
    assert!(err.message().contains("Unknown project or prefix"));
}

#[test]
fn test_rename_project_reports() {
    let config = config_with(&[("TickDown", "TD"), ("Other", "OTH")]);
    let p = plan_project_rename(&config, "TickDown", None, Some("NEW")).unwrap();
    assert_eq!(p.report(), "Changed prefix for TickDown: TD -> NEW");
    let n = plan_project_rename(&config, "TD", Some("MyProject"), None).unwrap();
    assert_eq!(n.report(), "Renamed project TickDown -> MyProject (prefix TD unchanged)");
    let b = plan_project_rename(&config, "TickDown", Some("NewName"), Some("NEW")).unwrap();
    assert_eq!(b.report(), "Renamed project TickDown (TD) -> NewName (NEW)");
}

#[test]
fn test_rename_project_changes_prefix() {
    let plan = plan_file_renames(&names(&["TD-1 First.md", "TD-2 Second.md", "OTH-1 X.md"]), &names(&[]), "TD", "NEW").unwrap();
    assert_eq!(plan.len(), 2);
    assert_eq!(plan[0].new_name, "NEW-1 First.md");
    assert_eq!(plan[1].new_name, "NEW-2 Second.md");
    assert_eq!(plan[0].old_id.to_string(), "TD-1");
    assert_eq!(plan[0].new_id.to_string(), "NEW-1");
    let content = rewrite_ids("# TD-1 First\n* Status: New\nsee TD-1 and TD-10\n", &plan[0].old_id, &plan[0].new_id);
    assert!(content.contains("NEW-1"));
    assert!(!content.contains("TD-1 "));
    assert_eq!(content, "# NEW-1 First\n* Status: New\nsee NEW-1 and NEW-10\n");
}

#[test]
fn test_rename_project_includes_done_dir() {
    let plan = plan_file_renames(&names(&["TD-1 Open.md"]), &names(&["TD-2 Closed.md"]), "TD", "NEW").unwrap();
    assert_eq!(plan.len(), 2);
    assert!(!plan[0].closed);
    assert!(plan[1].closed);
    assert_eq!(plan[1].index, 0);
    assert_eq!(plan[1].new_name, "NEW-2 Closed.md");
}

#[test]
fn test_rename_project_no_ticket_files() {
    let plan = plan_file_renames(&names(&["OTH-1 X.md", "notes.txt"]), &names(&[]), "TD", "NEW").unwrap();
    assert!(plan.is_empty());
}

#[test]
fn test_rename_project_file_conflict() {
    let err = plan_file_renames(&names(&["TD-1 A.md", "TD-2 B.md"]), &names(&["NEW-2 Old.md"]), "TD", "NEW").unwrap_err();
    assert_eq!(err.message(), "Conflict: NEW-2 already exists, cannot rename TD-2 -> NEW-2");
}

#[test]
fn test_replace_functions() {
    assert_eq!(replace_first_text("TD-1 TD-1", "TD-1", "X"), "X TD-1");
    assert_eq!(replace_first_text("abc", "zz", "X"), "abc");
    assert_eq!(replace_all_text("aaa", "aa", "b"), "ba");
    assert_eq!(replace_all_text("", "a", "b"), "");
}

// --- search ---

fn search_tickets() -> Vec<Ticket> {
    vec![
        read(("TD", 1), "Implement search command", "# TD-1 Implement search command\n* Status: New\n", false),
        read(("TD", 2), "Unrelated thing", "# TD-2 Unrelated thing\n* Status: New\n", false),
        read(("TD", 3), "Plain", "# TD-3 Plain\n* Status: New\n\nNotes about the rhubarb pie recipe.\n", false),
        read(("TD", 4), "Plain", "# TD-4 Plain\n* Status: New\n\n## Lars (2026-01-01 10:00)\nDiscovered an off-by-one bug.\n", false),
        read(("TD", 5), "FooBar", "# TD-5 FooBar\n* Status: New\n", false),
    ]
}

#[test]
fn test_search_matches_title() {
    let ts = search_tickets();
    assert_eq!(matching_tickets(&ts, "search"), vec![0]);
}

#[test]
fn test_search_matches_preamble() {
    let ts = search_tickets();
    assert_eq!(matching_tickets(&ts, "rhubarb"), vec![2]);
}

#[test]
fn test_search_matches_comment_body() {
    let ts = search_tickets();
    assert_eq!(matching_tickets(&ts, "off-by-one"), vec![3]);
}

#[test]
fn test_search_is_case_insensitive() {
    let ts = search_tickets();
    assert_eq!(matching_tickets(&ts, "foobar"), vec![4]);
    assert_eq!(matching_tickets(&ts, "FOO"), vec![4]);
}

#[test]
fn test_search_no_match_returns_empty() {
    let ts = search_tickets();
    assert!(matching_tickets(&ts, "banana").is_empty());
    assert!(matching_tickets(&vec![], "anything").is_empty());
}

#[test]
fn test_ticket_matches_needs_lower_case_needle() {
    let ts = search_tickets();
    assert!(ticket_matches(&ts[4], "foo"));
    assert!(!ticket_matches(&ts[4], "FOO"));
    assert!(contains("abc", ""));
    assert!(!contains("", "a"));
}

#[test]
fn test_comment_kept_by_timestamp() {
    let c = Comment { author: "A".into(), timestamp: Some(Timestamp::new(2024, 2, 29, 23, 59).unwrap()), body: String::new() };
    assert_eq!(shown_comment_heading(&c), "A (2024-02-29 23:59)");
}
