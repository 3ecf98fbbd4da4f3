use shellsuggest::cli::{
    init_lines, init_request, journal_lines, migrate_lines, migration_refusal, status_lines,
    status_opening, InitRequest, SourceCount, StatusCounts,
};
use shellsuggest::config::Config;
use shellsuggest::db::models::JournalEntry;
use shellsuggest::migrate::{init_zshrc_file, migrate_zsh_autosuggestions_file};

#[test]
fn test_status_command_reports_metrics_and_config_snapshot() {
    let mut config = Config::default();
    config.path.max_entries = 32;
    config.path.show_hidden = true;
    config.cd.fallback_mode = "disabled".into();
    config.ui.max_candidates = 7;
    let counts = StatusCounts {
        journal_rows: 1,
        accepted: 3,
        rejected: 1,
        acceptance_rate: "75.0".into(),
        by_source: vec![
            SourceCount {
                source: "history".into(),
                count: 2,
            },
            SourceCount {
                source: "cd_assist".into(),
                count: 1,
            },
        ],
        path_cache_rows: 1,
        history_seed_rows: 0,
    };
    let mut lines = status_opening(Some("/data/shellsuggest/journal.db"));
    lines.extend(status_lines(Some(&counts), config.to_text(None, Some("/h"))));
    let stdout = lines.join("\n");
    assert!(stdout.contains("runtime: per-shell query process (no shared daemon)"));
    assert!(stdout.contains("db: /data/shellsuggest/journal.db"));
    assert!(stdout.contains("journal_rows: 1"));
    assert!(stdout.contains("feedback.accepted: 3"));
    assert!(stdout.contains("feedback.rejected: 1"));
    assert!(stdout.contains("feedback.acceptance_rate: 75.0%"));
    assert!(stdout.contains("feedback.by_source: history=2, cd_assist=1"));
    assert!(stdout.contains("path_cache_rows: 1"));
    assert!(stdout.contains("  path.max_entries = 32"));
    assert!(stdout.contains("  path.show_hidden = true"));
    assert!(stdout.contains("  cd.fallback_mode = disabled"));
    assert!(stdout.contains("  ui.max_candidates = 7"));
}

#[test]
fn status_without_a_database() {
    let mut lines = status_opening(None);
    lines.extend(status_lines(None, "config:".into()));
    assert_eq!(lines[0], "runtime: per-shell query process (no shared daemon)");
    assert_eq!(lines[1], "db: not found");
    assert_eq!(lines[5], "feedback.acceptance_rate: 0.0%");
    assert_eq!(lines[6], "feedback.by_source: none");
    assert_eq!(lines[9], "config:");
    assert_eq!(lines.len(), 10);
}

#[test]
fn the_journal_is_listed() {
    let entry = |exit_code| JournalEntry {
        id: Some(1),
        command_line: "make".into(),
        cwd: "/p".into(),
        exit_code,
        duration_ms: None,
        session_id: "s".into(),
        timestamp: 1_500,
    };
    assert_eq!(
        journal_lines("/db", Some(&vec![entry(Some(-2)), entry(None)])),
        vec![
            "[1500] make (cwd: /p, exit: -2)",
            "[1500] make (cwd: /p, exit: ?)"
        ]
    );
    assert_eq!(journal_lines("/db", Some(&Vec::new())), vec!["journal is empty"]);
    assert_eq!(journal_lines("/db", None), vec!["no journal found at /db"]);
}

#[test]
fn init_is_asked_for_in_one_of_two_ways() {
    assert_eq!(init_request(Some("zsh"), false, false), InitRequest::PrintPlugin);
    assert_eq!(init_request(None, true, true), InitRequest::Install);
    match init_request(Some("zsh"), false, true) {
        InitRequest::Refused { reason } => assert!(reason.contains("without a shell argument")),
        other => panic!("unexpected request: {other:?}"),
    }
    match init_request(Some("fish"), false, false) {
        InitRequest::Refused { reason } => {
            assert_eq!(reason, "unsupported shell: fish. only 'zsh' is supported.")
        }
        other => panic!("unexpected request: {other:?}"),
    }
    assert_eq!(migration_refusal("zsh-autosuggestions"), None);
    assert_eq!(
        migration_refusal("fish").unwrap(),
        "unsupported migration source: fish. only 'zsh-autosuggestions' is supported."
    );
}

#[test]
fn an_installation_is_reported() {
    let plan = init_zshrc_file("/h/.zshrc", Some("export A=1\n"), false, Some(5)).unwrap();
    assert_eq!(
        init_lines(&plan.applied, false),
        vec![
            "zshrc: /h/.zshrc",
            "mode: applied",
            "action: append-init",
            "added_shellsuggest_init: true",
            "backup: /h/.zshrc.shellsuggest.bak-5",
            "warnings: none",
        ]
    );
    let contents = "plugins=(zsh-autosuggestions)\nZSH_AUTOSUGGEST_STRATEGY=x\n";
    let plan = init_zshrc_file("/h/.zshrc", Some(contents), true, None).unwrap();
    let lines = init_lines(&plan.applied, true);
    assert_eq!(lines[1], "mode: dry-run");
    assert_eq!(lines[2], "action: migrate-zsh-autosuggestions");
    assert_eq!(lines[3], "disabled_lines: 0");
    assert_eq!(lines[4], "removed_plugin_tokens: 1");
    assert_eq!(lines[5], "added_shellsuggest_init: true");
    assert_eq!(lines[6], "warnings:");
    assert!(lines[7].starts_with("  - review `ZSH_AUTOSUGGEST_STRATEGY`"));
    assert_eq!(lines.len(), 8);
}

#[test]
fn a_migration_is_reported() {
    let plan =
        migrate_zsh_autosuggestions_file("/z", Some("export A=1\n"), false, Some(5)).unwrap();
    assert_eq!(
        migrate_lines(&plan.applied, false),
        vec!["zshrc: /z", "mode: applied", "changes: none", "warnings: none"]
    );
    let contents = "source zsh-autosuggestions.zsh\n";
    let plan = migrate_zsh_autosuggestions_file("/z", Some(contents), false, Some(5)).unwrap();
    assert_eq!(
        migrate_lines(&plan.applied, false)[2..6],
        [
            "disabled_lines: 1",
            "removed_plugin_tokens: 0",
            "added_shellsuggest_init: true",
            "backup: /z.shellsuggest.bak-5",
        ]
    );
}
