use tickdown::commands::plan_file_renames;
use tickdown::config_file::{add_project_text, append_sync_text, rename_project_text, ConfigEditError};

const BASE: &str = "default_author = \"X\"\nnotes_dir = \".\"\n\n[statuses]\nvalues = [\"New\"]\ndefault = \"New\"\n\n[projects]\nTestProject = \"TP\"\n";

const RENAME_BASE: &str = r#"
default_author = "Tester"
notes_dir = "."

[statuses]
values = ["New", "Done"]
default = "New"

[projects]
TickDown = "TD"
Other = "OTH"
"#;

#[test]
fn test_append_sync_to_config_new_key() {
    let content = append_sync_text(BASE, "TestProject", "mock", "owner/repo").unwrap();
    assert!(content.contains("[[sync]]"));
    assert!(content.contains("TestProject"));
    assert!(content.contains("owner/repo"));
}

#[test]
fn test_append_sync_to_config_existing_array() {
    let text = "default_author = \"X\"\nnotes_dir = \".\"\n\n[statuses]\nvalues = [\"New\"]\ndefault = \"New\"\n\n[projects]\nTestProject = \"TP\"\nOther = \"OT\"\n\n[[sync]]\nproject = \"Other\"\nprovider = \"github\"\nrepo = \"a/b\"\n";
    let content = append_sync_text(text, "TestProject", "mock", "owner/repo").unwrap();
    let count = content.matches("[[sync]]").count();
    assert_eq!(count, 2);
    assert!(content.contains("TestProject"));
    assert!(content.contains("Other"));
}

#[test]
fn test_append_sync_to_config_invalid_sync_type_errors() {
    let text = "default_author = \"X\"\nnotes_dir = \".\"\nsync = \"bad\"\n\n[statuses]\nvalues = [\"New\"]\ndefault = \"New\"\n\n[projects]\nTestProject = \"TP\"\n";
    let result = append_sync_text(text, "TestProject", "mock", "owner/repo");
    assert!(result.is_err());
    let e = result.unwrap_err();
    assert!(matches!(e, ConfigEditError::SyncNotArray));
    assert_eq!(e.message(), "'sync' key in config is not an array");
}

#[test]
fn append_sync_text_keeps_entries_in_order_and_reads_back() {
    let content = append_sync_text(BASE, "TestProject", "github", "owner/repo").unwrap();
    let doc: toml::Value = content.parse().unwrap();
    let sync = doc.get("sync").unwrap().as_array().unwrap();
    assert_eq!(sync.len(), 1);
    assert_eq!(sync[0].get("project").unwrap().as_str(), Some("TestProject"));
    assert_eq!(sync[0].get("provider").unwrap().as_str(), Some("github"));
    assert_eq!(sync[0].get("repo").unwrap().as_str(), Some("owner/repo"));
    assert_eq!(doc.get("projects").unwrap().get("TestProject").unwrap().as_str(), Some("TP"));
}

#[test]
fn config_edits_refuse_text_that_is_not_toml() {
    let bad = "this is = = not toml";
    for r in [
        append_sync_text(bad, "P", "github", "a/b"),
        add_project_text(bad, "P", "PP"),
        rename_project_text(bad, "P", "Q", "PP"),
    ] {
        let e = r.unwrap_err();
        assert!(matches!(e, ConfigEditError::NotToml(_)));
        assert!(e.message().starts_with("Failed to parse config as TOML: "));
    }
}

#[test]
fn add_project_text_inserts_into_projects() {
    let content = add_project_text(RENAME_BASE, "NewProject", "NP").unwrap();
    let doc: toml::Value = content.parse().unwrap();
    let projects = doc.get("projects").unwrap();
    assert_eq!(projects.get("NewProject").unwrap().as_str(), Some("NP"));
    assert_eq!(projects.get("TickDown").unwrap().as_str(), Some("TD"));
}

#[test]
fn add_project_text_without_projects_table_rewrites_only() {
    let text = "default_author = \"X\"\nprojects = 3\n";
    let content = add_project_text(text, "NewProject", "NP").unwrap();
    assert!(!content.contains("NewProject"));
    let doc: toml::Value = content.parse().unwrap();
    assert_eq!(doc.get("projects").unwrap().as_integer(), Some(3));
}

#[test]
fn test_rename_project_changes_name() {
    let cfg = rename_project_text(RENAME_BASE, "TickDown", "MyProject", "TD").unwrap();
    assert!(cfg.contains("MyProject"));
    assert!(!cfg.contains("TickDown"));
    assert!(cfg.contains("TD"));
}

#[test]
fn test_rename_project_both_name_and_prefix() {
    let renames = plan_file_renames(&vec!["TD-1 Test.md".to_string()], &vec![], "TD", "NEW").unwrap();
    assert_eq!(renames.len(), 1);
    assert_eq!(renames[0].new_name, "NEW-1 Test.md");
    let cfg = rename_project_text(RENAME_BASE, "TickDown", "NewName", "NEW").unwrap();
    assert!(cfg.contains("NewName"));
    assert!(cfg.contains("NEW"));
    assert!(!cfg.contains("TickDown"));
}
