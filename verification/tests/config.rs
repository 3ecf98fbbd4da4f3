use shellsuggest::config::{
    expand_tilde, CdConfig, CdFallbackMode, Config, ConfigFile, HistoryConfig, PathConfig,
    UiConfig, DEFAULT_HISTORY_SEED_MAX_ENTRIES, DEFAULT_MAX_CANDIDATES, DEFAULT_PATH_MAX_ENTRIES,
    DEFAULT_SHOW_HIDDEN,
};

#[test]
fn test_defaults_when_config_missing() {
    let config = Config::load_from_path("/c/missing.toml", ConfigFile::Missing).unwrap();

    assert_eq!(config.path.max_entries, DEFAULT_PATH_MAX_ENTRIES);
    assert_eq!(config.path.show_hidden, DEFAULT_SHOW_HIDDEN);
    assert_eq!(config.ui.max_candidates, DEFAULT_MAX_CANDIDATES);
    assert_eq!(config.cd_fallback_mode(), CdFallbackMode::CurrentDirOnly);
    assert!(config.history.seed_from_histfile);
    assert_eq!(
        config.history.seed_max_entries,
        DEFAULT_HISTORY_SEED_MAX_ENTRIES
    );
}

#[test]
fn test_override_values_from_config_file() {
    let parsed = Config {
        path: PathConfig {
            max_entries: 128,
            show_hidden: true,
        },
        cd: CdConfig {
            fallback_mode: "disabled".into(),
        },
        history: HistoryConfig {
            seed_from_histfile: false,
            histfile_path: "~/alt-history".into(),
            seed_max_entries: 123,
        },
        ui: UiConfig { max_candidates: 7 },
    };
    let config =
        Config::load_from_path("/c/config.toml", ConfigFile::Parsed { config: parsed }).unwrap();

    assert_eq!(config.path.max_entries, 128);
    assert!(config.path.show_hidden);
    assert_eq!(config.cd_fallback_mode(), CdFallbackMode::Disabled);
    assert!(!config.history.seed_from_histfile);
    assert_eq!(config.history.seed_max_entries, 123);
    assert_eq!(config.history.histfile_path, "~/alt-history");
    assert_eq!(config.ui.max_candidates, 7);
}

#[test]
fn test_invalid_toml_returns_error() {
    let error = Config::load_from_path("/c/config.toml", ConfigFile::Malformed)
        .unwrap_err()
        .to_string();

    assert!(error.contains("failed to parse config"));
    assert!(error.contains("config.toml"));
}

#[test]
fn test_zero_values_fall_back_to_defaults() {
    let mut parsed = Config::default();
    parsed.path.max_entries = 0;
    parsed.history.seed_max_entries = 0;
    parsed.ui.max_candidates = 0;
    let config =
        Config::load_from_path("/c/config.toml", ConfigFile::Parsed { config: parsed }).unwrap();

    assert_eq!(config.path.max_entries, DEFAULT_PATH_MAX_ENTRIES);
    assert_eq!(
        config.history.seed_max_entries,
        DEFAULT_HISTORY_SEED_MAX_ENTRIES
    );
    assert_eq!(config.ui.max_candidates, DEFAULT_MAX_CANDIDATES);
}

#[test]
fn test_history_seed_path_prefers_configured_value() {
    let config = Config {
        history: HistoryConfig {
            seed_from_histfile: true,
            histfile_path: "~/custom_hist".into(),
            seed_max_entries: DEFAULT_HISTORY_SEED_MAX_ENTRIES,
        },
        ..Config::default()
    };

    let path = config.history_seed_path(Some("/other"), Some("/h")).unwrap();
    assert!(path.ends_with("custom_hist"));
    assert_eq!(path, "/h/custom_hist");
}

#[test]
fn test_runtime_commands_fail_fast_on_invalid_config() {
    let error = Config::load(Some("/c/config.toml"), ConfigFile::Malformed).unwrap_err();
    assert!(error.to_string().contains("failed to parse config"));
    let error = Config::load(Some("/c/config.toml"), ConfigFile::Unreadable).unwrap_err();
    assert_eq!(error.to_string(), "failed to read config from /c/config.toml");
    assert_eq!(
        Config::load(None, ConfigFile::Malformed).unwrap(),
        Config::default()
    );
}

#[test]
fn the_history_file_is_found() {
    let config = Config::default();
    assert_eq!(
        config.history_seed_path(Some(" ~/hist "), Some("/h")),
        Some("/h/hist".into())
    );
    assert_eq!(
        config.history_seed_path(Some("  "), Some("/h")),
        Some("/h/.zsh_history".into())
    );
    assert_eq!(
        config.history_seed_path(None, Some("/h")),
        Some("/h/.zsh_history".into())
    );
    assert_eq!(config.history_seed_path(None, None), None);
}

#[test]
fn no_history_file_is_wanted_where_seeding_is_off() {
    let mut config = Config::default();
    config.history.seed_from_histfile = false;
    assert_eq!(config.history_seed_path(Some("/hist"), Some("/h")), None);
    config.history.histfile_path = "/configured".into();
    assert_eq!(config.history_seed_path(Some("/hist"), Some("/h")), None);
}

#[test]
fn tildes_are_expanded() {
    assert_eq!(expand_tilde("~", Some("/h")), "/h");
    assert_eq!(expand_tilde("~", None), "~");
    assert_eq!(expand_tilde("~/a/b", Some("/h/")), "/h/a/b");
    assert_eq!(expand_tilde("~/a", None), "~/a");
    assert_eq!(expand_tilde("~user/a", Some("/h")), "~user/a");
    assert_eq!(expand_tilde("~//abs", Some("/h")), "/abs");
}

#[test]
fn the_config_file_is_found() {
    assert_eq!(
        Config::default_path(Some("/x"), Some("/h")),
        Some("/x/shellsuggest/config.toml".into())
    );
    assert_eq!(
        Config::default_path(None, Some("/h")),
        Some("/h/.config/shellsuggest/config.toml".into())
    );
    assert_eq!(Config::default_path(None, None), None);
}

#[test]
fn blank_modes_fall_back_and_defaults_are_normal() {
    let mut parsed = Config::default();
    parsed.cd.fallback_mode = " \t".into();
    assert_eq!(parsed.normalized(), Config::default());
    assert_eq!(Config::default().normalized(), Config::default());
}

#[test]
fn the_config_is_shown() {
    let text = Config::default().to_text(None, Some("/h"));
    assert_eq!(
        text,
        "config:\n  path.max_entries = 256\n  path.show_hidden = false\n  cd.fallback_mode = current_dir_only\n  history.seed_from_histfile = true\n  history.histfile_path = /h/.zsh_history\n  history.seed_max_entries = 20000\n  ui.max_candidates = 5"
    );
    assert!(Config::default()
        .to_text(None, None)
        .contains("  history.histfile_path = disabled\n"));
}
