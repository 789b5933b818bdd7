use tickdown::commands::{check_sync_init, known_projects, resolve_or_explain, CommandError};
use tickdown::config::{Config, StatusConfig, SyncConfig};
use tickdown::remote::{create_provider, resolve_sync_configs, SyncError};

fn test_config() -> Config {
    Config {
        default_author: "Test".to_string(),
        notes_dir: ".".to_string(),
        statuses: StatusConfig { values: vec!["New".into(), "Done".into()], default: "New".to_string() },
        projects: vec![
            ("TickDown".to_string(), "LAW".to_string()),
            ("Garten".to_string(), "GTN".to_string()),
        ],
        sync: vec![],
        config_path: ".tickdown.toml".to_string(),
    }
}

fn make_config(sync: Vec<SyncConfig>) -> Config {
    Config {
        default_author: "Tester".to_string(),
        notes_dir: ".".to_string(),
        statuses: StatusConfig { values: vec!["New".to_string()], default: "New".to_string() },
        projects: vec![
            ("TickDown".to_string(), "LAW".to_string()),
            ("Other".to_string(), "OT".to_string()),
        ],
        sync,
        config_path: ".tickdown.toml".to_string(),
    }
}

fn sync_entry(project: &str, provider: &str, repo: &str) -> SyncConfig {
    SyncConfig { project: project.to_string(), provider: provider.to_string(), repo: repo.to_string() }
}

#[test]
fn test_prefix_for_project_found() {
    let config = test_config();
    assert_eq!(config.prefix_for_project("TickDown"), Some("LAW"));
    assert_eq!(config.prefix_for_project("Garten"), Some("GTN"));
}

#[test]
fn test_prefix_for_project_not_found() {
    let config = test_config();
    assert_eq!(config.prefix_for_project("Unknown"), None);
}

#[test]
fn test_project_name_for_prefix_found() {
    let config = test_config();
    assert_eq!(config.project_name_for_prefix("LAW"), Some("TickDown"));
    assert_eq!(config.project_name_for_prefix("GTN"), Some("Garten"));
}

#[test]
fn test_project_name_for_prefix_not_found() {
    let config = test_config();
    assert_eq!(config.project_name_for_prefix("XYZ"), None);
}

#[test]
fn test_resolve_prefix_by_project_name() {
    let config = test_config();
    assert_eq!(config.resolve_prefix("TickDown"), Some("LAW".to_string()));
}

#[test]
fn test_resolve_prefix_by_prefix_directly() {
    let config = test_config();
    assert_eq!(config.resolve_prefix("LAW"), Some("LAW".to_string()));
    assert_eq!(config.resolve_prefix("GTN"), Some("GTN".to_string()));
}

#[test]
fn test_resolve_prefix_unknown() {
    let config = test_config();
    assert_eq!(config.resolve_prefix("NOPE"), None);
}

#[test]
fn test_resolve_prefix_prefers_project_name_over_prefix() {
    let config = Config {
        default_author: "Test".to_string(),
        notes_dir: ".".to_string(),
        statuses: StatusConfig { values: vec![], default: "New".to_string() },
        projects: vec![
            ("GTN".to_string(), "SPECIAL".to_string()),
            ("Garten".to_string(), "GTN".to_string()),
        ],
        sync: vec![],
        config_path: ".".to_string(),
    };
    assert_eq!(config.resolve_prefix("GTN"), Some("SPECIAL".to_string()));
}

#[test]
fn test_resolve_prefix_name_listed_after_prefix_still_wins() {
    let config = Config {
        default_author: "Test".to_string(),
        notes_dir: ".".to_string(),
        statuses: StatusConfig { values: vec![], default: "New".to_string() },
        projects: vec![
            ("Garten".to_string(), "GTN".to_string()),
            ("GTN".to_string(), "SPECIAL".to_string()),
        ],
        sync: vec![],
        config_path: ".".to_string(),
    };
    assert_eq!(config.resolve_prefix("GTN"), Some("SPECIAL".to_string()));
}

#[test]
fn test_known_projects_lists_names_and_prefixes() {
    let config = test_config();
    assert_eq!(known_projects(&config), "TickDown (LAW), Garten (GTN)");
}

#[test]
fn test_resolve_or_explain_names_known_projects() {
    let config = test_config();
    assert_eq!(resolve_or_explain(&config, "Garten").unwrap(), "GTN");
    let err = resolve_or_explain(&config, "Nope").unwrap_err();
    assert_eq!(err.message(), "Unknown project or prefix: Nope. Known: TickDown (LAW), Garten (GTN)");
}

// --- sync init validation ---

#[test]
fn test_init_rejects_unknown_provider() {
    let config = make_config(vec![]);
    let result = check_sync_init(&config, "jira", "owner/repo", "TickDown");
    let msg = result.unwrap_err().message();
    assert!(msg.contains("Unknown sync provider"));
    assert_eq!(msg, "Unknown sync provider: jira. Supported: github");
}

#[test]
fn test_init_rejects_unknown_project() {
    let config = make_config(vec![]);
    let result = check_sync_init(&config, "github", "owner/repo", "DoesNotExist");
    let msg = result.unwrap_err().message();
    assert!(msg.contains("Unknown project"));
    assert_eq!(msg, "Unknown project: DoesNotExist. Known: TickDown (LAW), Other (OT)");
}

#[test]
fn test_init_rejects_duplicate_sync() {
    let config = make_config(vec![sync_entry("TickDown", "github", "owner/repo")]);
    let result = check_sync_init(&config, "github", "owner/repo", "TickDown");
    let msg = result.unwrap_err().message();
    assert!(msg.contains("already configured"));
    assert_eq!(msg, "Sync already configured for project TickDown with github (owner/repo)");
}

#[test]
fn test_init_accepts_new_entry_and_gives_prefix() {
    let config = make_config(vec![sync_entry("TickDown", "github", "owner/repo")]);
    assert_eq!(check_sync_init(&config, "github", "owner/other", "TickDown").unwrap(), "LAW");
    assert_eq!(check_sync_init(&config, "github", "owner/repo", "OT").unwrap(), "OT");
}

// --- resolve_sync_configs ---

#[test]
fn test_resolve_sync_configs_all() {
    let config = make_config(vec![sync_entry("TickDown", "github", "a/b"), sync_entry("Other", "github", "c/d")]);
    let configs = resolve_sync_configs(&config, None).unwrap();
    assert_eq!(configs.len(), 2);
}

#[test]
fn test_resolve_sync_configs_filtered() {
    let config = make_config(vec![sync_entry("TickDown", "github", "a/b"), sync_entry("Other", "github", "c/d")]);
    let configs = resolve_sync_configs(&config, Some("TickDown")).unwrap();
    assert_eq!(configs.len(), 1);
    assert_eq!(configs[0].project, "TickDown");
}

#[test]
fn test_resolve_sync_configs_not_found() {
    let config = make_config(vec![sync_entry("TickDown", "github", "a/b")]);
    let result = resolve_sync_configs(&config, Some("Other"));
    assert!(result.is_err());
    let msg = result.unwrap_err().message();
    assert!(msg.contains("No sync configuration"));
    assert_eq!(msg, "No sync configuration found for project: Other");
}

#[test]
fn test_resolve_sync_configs_all_empty() {
    let config = make_config(vec![]);
    let configs = resolve_sync_configs(&config, None).unwrap();
    assert!(configs.is_empty());
}

#[test]
fn test_resolve_sync_configs_keeps_order_of_matches() {
    let config = make_config(vec![
        sync_entry("TickDown", "github", "a/b"),
        sync_entry("Other", "github", "c/d"),
        sync_entry("TickDown", "github", "e/f"),
    ]);
    let configs = resolve_sync_configs(&config, Some("TickDown")).unwrap();
    let repos: Vec<&str> = configs.iter().map(|c| c.repo.as_str()).collect();
    assert_eq!(repos, vec!["a/b", "e/f"]);
}

// --- create_provider ---

#[test]
fn test_create_provider_github() {
    let sc = sync_entry("TickDown", "github", "owner/repo");
    let provider = create_provider(&sc).unwrap();
    assert_eq!(provider.name(), "github");
    assert_eq!(provider.repo, "owner/repo");
}

#[test]
fn test_create_provider_unknown() {
    let sc = sync_entry("TickDown", "jira", "owner/repo");
    match create_provider(&sc) {
        Ok(_) => panic!("expected error"),
        Err(e) => {
            assert!(e.message().contains("Unknown sync provider"));
            assert!(matches!(e, SyncError::UnknownProvider(ref p) if p == "jira"));
        },
    }
}

#[test]
fn test_command_error_messages() {
    assert_eq!(CommandError::NoTarget.message(), "Provide --project or --prefix.");
    assert_eq!(CommandError::BothTargets.message(), "Provide either --project or --prefix, not both.");
    assert_eq!(CommandError::InvalidTicketId("x".to_string()).message(), "Invalid ticket ID: x");
}
