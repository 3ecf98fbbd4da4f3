use shellsuggest::migrate::{
    backup_path_for, default_zshrc_path, init_zshrc_file, migrate_zsh_autosuggestions,
    migrate_zsh_autosuggestions_file, plan_zshrc_init, FileStep, InitAction, MigrateError,
    INIT_HEADER,
};

#[test]
fn removes_zsh_autosuggestions_from_single_line_plugin_array() {
    let original = "plugins=(git zsh-autosuggestions fzf)\n";

    let report = migrate_zsh_autosuggestions(original);

    assert!(report.changed);
    assert_eq!(report.removed_plugin_tokens, 1);
    assert!(report.added_init);
    assert!(report.updated_contents.contains("plugins=(git fzf)"));
    assert!(report
        .updated_contents
        .contains(r#"eval "$(shellsuggest init zsh)""#));
}

#[test]
fn comments_out_manual_source_lines() {
    let original = "source ~/.zsh/zsh-autosuggestions/zsh-autosuggestions.zsh\n";

    let report = migrate_zsh_autosuggestions(original);

    assert!(report.changed);
    assert_eq!(report.disabled_lines, 1);
    assert!(report.updated_contents.contains(
        "# disabled by shellsuggest migrate: source ~/.zsh/zsh-autosuggestions/zsh-autosuggestions.zsh"
    ));
}

#[test]
fn does_not_duplicate_shellsuggest_loader() {
    let original = "\
plugins=(git zsh-autosuggestions)\n\
eval \"$(shellsuggest init zsh)\"\n";

    let report = migrate_zsh_autosuggestions(original);

    assert!(report.changed);
    assert!(!report.added_init);
    assert_eq!(
        report
            .updated_contents
            .matches("shellsuggest init zsh")
            .count(),
        1
    );
}

#[test]
fn warns_about_settings_that_need_manual_review() {
    let original = "\
plugins=(git zsh-autosuggestions)\n\
ZSH_AUTOSUGGEST_STRATEGY=(history completion)\n\
ZSH_AUTOSUGGEST_COMPLETION_IGNORE='git *'\n\
ZSH_AUTOSUGGEST_ACCEPT_WIDGETS+=(forward-char)\n";

    let report = migrate_zsh_autosuggestions(original);

    assert_eq!(report.warnings.len(), 3);
}

#[test]
fn init_appends_loader_when_no_existing_setup_is_present() {
    let original = "plugins=(git fzf)\n";

    let report = plan_zshrc_init(original, true);

    assert_eq!(report.action, InitAction::AppendInit);
    assert!(report.changed);
    assert!(report.updated_contents.contains(INIT_HEADER));
    assert!(report
        .updated_contents
        .contains(r#"eval "$(shellsuggest init zsh)""#));
}

#[test]
fn init_preserves_raw_loader_contract_when_already_installed() {
    let original = "\
plugins=(git)\n\
eval \"$(shellsuggest init zsh)\"\n";

    let report = plan_zshrc_init(original, true);

    assert_eq!(report.action, InitAction::AlreadyInstalled);
    assert!(!report.changed);
    assert!(report.migration.is_none());
}

#[test]
fn init_uses_migration_when_autosuggestions_are_active() {
    let original = "plugins=(git zsh-autosuggestions)\n";

    let report = plan_zshrc_init(original, true);

    assert_eq!(report.action, InitAction::MigrateFromZshAutosuggestions);
    assert!(report.changed);
    assert!(report.migration.is_some());
}

#[test]
fn init_surfaces_manual_review_warnings_even_without_migration() {
    let original = "ZSH_AUTOSUGGEST_STRATEGY=(history completion)\n";

    let report = plan_zshrc_init(original, true);

    assert_eq!(report.action, InitAction::AppendInit);
    assert_eq!(report.warnings.len(), 1);
}

#[test]
fn writes_backup_and_updates_file() {
    let original = "plugins=(git zsh-autosuggestions)\n";
    let plan =
        migrate_zsh_autosuggestions_file("/home/me/.zshrc", Some(original), false, Some(1_700))
            .unwrap();

    assert!(plan.applied.report.changed);
    let backup_path = plan.applied.backup_path.expect("backup path");
    assert_eq!(backup_path, "/home/me/.zshrc.shellsuggest.bak-1700");
    assert_eq!(
        plan.steps[0],
        FileStep::Backup {
            path: backup_path,
            contents: original.into(),
        }
    );
    match &plan.steps[1] {
        FileStep::Update { path, contents } => {
            assert_eq!(path, "/home/me/.zshrc");
            assert!(contents.contains("shellsuggest init zsh"));
        }
        other => panic!("unexpected step: {other:?}"),
    }
    assert_eq!(plan.steps.len(), 2);
}

#[test]
fn init_creates_missing_zshrc_without_backup() {
    let plan = init_zshrc_file("/home/me/.zshrc", None, false, Some(1_700)).unwrap();

    assert_eq!(plan.applied.report.action, InitAction::CreateZshrc);
    assert!(plan.applied.report.changed);
    assert!(plan.applied.backup_path.is_none());
    assert_eq!(
        plan.steps[0],
        FileStep::CreateDir {
            path: "/home/me".into()
        }
    );
    match &plan.steps[1] {
        FileStep::Update { path, contents } => {
            assert_eq!(path, "/home/me/.zshrc");
            assert!(contents.contains("shellsuggest init zsh"));
        }
        other => panic!("unexpected step: {other:?}"),
    }
    assert_eq!(plan.steps.len(), 2);
}

#[test]
fn the_whole_file_is_rewritten_exactly() {
    let original = "export A=1\r\n  source x/zsh-autosuggestions.zsh  # fast\nplugins=( git zsh-autosuggestions  fzf ) # mine\n# zsh-autosuggestions\n";
    let report = migrate_zsh_autosuggestions(original);
    assert_eq!(
        report.updated_contents,
        "export A=1\n  # disabled by shellsuggest migrate: source x/zsh-autosuggestions.zsh  # fast\nplugins=(git fzf) # mine\n# zsh-autosuggestions\n\n# Added by `shellsuggest migrate zsh-autosuggestions`\neval \"$(shellsuggest init zsh)\"\n"
    );
    assert_eq!(report.disabled_lines, 1);
    assert_eq!(report.removed_plugin_tokens, 1);
}

#[test]
fn the_loader_is_set_apart() {
    let apart = plan_zshrc_init("export A=1\n", true).updated_contents;
    assert_eq!(
        apart,
        "export A=1\n\n# Added by `shellsuggest init`\neval \"$(shellsuggest init zsh)\"\n"
    );
    let blank = plan_zshrc_init("export A=1\n\n", true).updated_contents;
    assert_eq!(apart, blank);
    let empty = plan_zshrc_init("", false).updated_contents;
    assert_eq!(
        empty,
        "# Added by `shellsuggest init`\neval \"$(shellsuggest init zsh)\"\n"
    );
}

#[test]
fn warnings_come_in_the_order_of_their_texts() {
    let report = migrate_zsh_autosuggestions(
        "ZSH_AUTOSUGGEST_IGNORE_WIDGETS=x\nZSH_AUTOSUGGEST_STRATEGY=y\nZSH_AUTOSUGGEST_COMPLETION_IGNORE=z\nZSH_AUTOSUGGEST_CLEAR_WIDGETS=w\n# ZSH_AUTOSUGGEST_STRATEGY\n",
    );
    let mut sorted = report.warnings.clone();
    sorted.sort();
    assert_eq!(report.warnings, sorted);
    assert_eq!(report.warnings.len(), 3);
    assert!(migrate_zsh_autosuggestions("# ZSH_AUTOSUGGEST_STRATEGY=y\n")
        .warnings
        .is_empty());
}

#[test]
fn installing_twice_changes_nothing_the_second_time() {
    for contents in ["", "export A=1", "a\n\n\nb\r\n", "shellsuggest init zsh\r\n"] {
        let first = plan_zshrc_init(contents, true);
        let second = plan_zshrc_init(&first.updated_contents, true);
        assert_eq!(second.action, InitAction::AlreadyInstalled);
        assert!(!second.changed);
    }
}

#[test]
fn nothing_to_migrate_is_no_change() {
    for contents in ["", "export A=1", "plugins=(git fzf)\n", "a\r\n\r\n"] {
        let report = migrate_zsh_autosuggestions(contents);
        assert!(!report.changed);
        assert!(!report.added_init);
    }
    assert!(migrate_zsh_autosuggestions("\n").changed);
}

#[test]
fn a_migrated_file_loads_the_plugin() {
    let report = migrate_zsh_autosuggestions("plugins=(\n  git\n  zsh-autosuggestions # x\n)\n");
    assert_eq!(report.disabled_lines, 1);
    let again = plan_zshrc_init(&report.updated_contents, true);
    assert_eq!(again.action, InitAction::AlreadyInstalled);
}

#[test]
fn previews_and_refusals_take_no_steps() {
    let active = Some("plugins=(zsh-autosuggestions)\n");
    let preview = migrate_zsh_autosuggestions_file("/h/.zshrc", active, true, None).unwrap();
    assert!(preview.steps.is_empty());
    assert!(preview.applied.report.changed);
    assert!(preview.applied.backup_path.is_none());

    let missing = migrate_zsh_autosuggestions_file("/h/.zshrc", None, false, Some(1)).unwrap_err();
    assert_eq!(missing.to_string(), "zshrc not found at /h/.zshrc");
    let clock = migrate_zsh_autosuggestions_file("/h/.zshrc", active, false, None).unwrap_err();
    assert_eq!(clock.to_string(), "system time is before unix epoch");
    let nameless = init_zshrc_file("/", Some("export A=1\n"), false, Some(1)).unwrap_err();
    assert_eq!(nameless, MigrateError::NoFileName);
    assert_eq!(nameless.to_string(), "zshrc path is missing a file name");

    let installed = init_zshrc_file(
        "/h/.zshrc",
        Some("eval \"$(shellsuggest init zsh)\"\n"),
        false,
        Some(1),
    )
    .unwrap();
    assert!(installed.steps.is_empty());
}

#[test]
fn an_existing_file_is_backed_up_before_the_loader_goes_in() {
    let plan = init_zshrc_file("/h/.zshrc", Some("export A=1\n"), false, Some(42)).unwrap();
    assert_eq!(plan.steps.len(), 3);
    assert_eq!(
        plan.steps[0],
        FileStep::Backup {
            path: "/h/.zshrc.shellsuggest.bak-42".into(),
            contents: "export A=1\n".into(),
        }
    );
    assert_eq!(plan.steps[1], FileStep::CreateDir { path: "/h".into() });
}

#[test]
fn backups_stand_beside_the_file() {
    assert_eq!(
        backup_path_for("dir/rc", Some(7)).unwrap(),
        "dir/rc.shellsuggest.bak-7"
    );
    assert_eq!(backup_path_for("..", Some(7)).unwrap_err(), MigrateError::NoFileName);
}

#[test]
fn the_zshrc_is_found() {
    assert_eq!(default_zshrc_path(Some(" /z "), Some("/h")), Some("/z/.zshrc".into()));
    assert_eq!(default_zshrc_path(Some("  "), Some("/h")), Some("/h/.zshrc".into()));
    assert_eq!(default_zshrc_path(None, Some("/h")), Some("/h/.zshrc".into()));
    assert_eq!(default_zshrc_path(None, None), None);
}

#[test]
fn actions_have_names() {
    assert_eq!(InitAction::AlreadyInstalled.as_str(), "already-installed");
    assert_eq!(InitAction::CreateZshrc.as_str(), "create-zshrc");
    assert_eq!(InitAction::AppendInit.as_str(), "append-init");
    assert_eq!(
        InitAction::MigrateFromZshAutosuggestions.as_str(),
        "migrate-zsh-autosuggestions"
    );
}

#[test]
fn a_second_migration_does_nothing() {
    let texts = [
        "plugins=(git zsh-autosuggestions fzf)\n",
        "  plugins=(\n  git\n  zsh-autosuggestions # here\n)\nsource zsh-autosuggestions.zsh\n",
        "plugins=(zsh-autosuggestions zsh-autosuggestions)",
        "source zsh-autosuggestions.zsh; eval \"$(shellsuggest init zsh)\"\n",
        "# zsh-autosuggestions\n",
        "plugins=(zsh-autosuggestions)\r\nls\r\n",
        "\n",
        "",
    ];
    for contents in texts {
        let once = migrate_zsh_autosuggestions(contents);
        let twice = migrate_zsh_autosuggestions(&once.updated_contents);
        assert!(!twice.changed, "{contents:?}");
        assert_eq!(twice.disabled_lines, 0);
        assert_eq!(twice.removed_plugin_tokens, 0);
        assert!(!twice.added_init);
        assert_eq!(twice.updated_contents, once.updated_contents);
        for line in once.updated_contents.lines() {
            assert!(!line.contains("zsh-autosuggestions") || line.trim_start().starts_with('#'));
        }
    }
    let kept = migrate_zsh_autosuggestions("plugins=(zsh-autosuggestions x/zsh-autosuggestions)");
    assert!(kept.updated_contents.starts_with("plugins=(x/zsh-autosuggestions)\n"));
    assert_eq!(migrate_zsh_autosuggestions(&kept.updated_contents).disabled_lines, 1);
}

#[test]
fn a_second_installation_finds_the_first() {
    let texts = [
        "plugins=(git zsh-autosuggestions fzf)\n",
        "eval \"$(shellsuggest init zsh)\"\nsource zsh-autosuggestions.zsh\n",
        "plugins=(git)\n",
        "",
    ];
    for contents in texts {
        let once = plan_zshrc_init(contents, true);
        let twice = plan_zshrc_init(&once.updated_contents, true);
        assert_eq!(twice.action, InitAction::AlreadyInstalled);
        assert!(!twice.changed);
        assert!(twice.migration.is_none());
    }
}
