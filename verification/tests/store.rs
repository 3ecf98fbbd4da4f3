use shellsuggest::db::models::{JournalEntry, PathCacheEntry};
use shellsuggest::db::store::{
    backfill_plan, fresh, frequencies_sql, from_sql_integer, journal_row, like_pattern,
    prefix_upper_bound, stat_changes, to_sql_integer, usable_cache, Backfill, CwdQuery,
    PrefixQuery, StatChange, TransitionQuery,
};

fn entry(exit_code: Option<i32>) -> JournalEntry {
    JournalEntry {
        id: None,
        command_line: "make test".into(),
        cwd: "/project".into(),
        exit_code,
        duration_ms: Some(u64::MAX),
        session_id: "sess1".into(),
        timestamp: 100,
    }
}

#[test]
fn test_path_cache_ttl() {
    let entry = PathCacheEntry {
        dir_path: "/home/user".to_string(),
        entries_json: r#"["file1", "file2"]"#.to_string(),
        entry_count: 2,
        cached_at: 1000,
    };

    // Within TTL: now=1500, ttl=1000 => age=500 <= 1000
    let result = usable_cache(Some(entry.clone()), 1000, 1500);
    assert!(result.is_some());
    assert_eq!(result.unwrap().entry_count, 2);

    // Expired: now=3000, ttl=1000 => age=2000 > 1000
    let result = usable_cache(Some(entry), 1000, 3000);
    assert!(result.is_none());

    // Non-existent path
    let result = usable_cache(None, 1000, 1500);
    assert!(result.is_none());
}

#[test]
fn listings_from_the_future_are_fresh() {
    assert!(fresh(2_000, 0, 1_000));
    assert!(fresh(1_000, 500, 1_500));
    assert!(!fresh(1_000, 499, 1_500));
}

#[test]
fn a_range_holds_what_begins_with_its_prefix() {
    let upper = prefix_upper_bound("git ");
    assert_eq!(upper, "git \u{10FFFF}");
    let inside = |s: &str| s >= "git " && s < upper.as_str();
    assert!(inside("git "));
    assert!(inside("git status"));
    assert!(inside("git \u{10FFFE}"));
    assert!(!inside("git"));
    assert!(!inside("git!"));
    assert!(!inside("gitk"));
    assert!(!inside("git \u{10FFFF}"));
}

#[test]
fn queries_hand_over_the_range() {
    let query = CwdQuery::new("/p", "ma", 20);
    assert_eq!(query.cwd, "/p");
    assert_eq!(query.commands, PrefixQuery::new("ma", 20));
    assert_eq!(query.commands.prefix, "ma");
    assert_eq!(query.commands.upper, "ma\u{10FFFF}");
    assert_eq!(query.commands.limit, 20);
    let follow = TransitionQuery::new("vim a", "make", 5);
    assert_eq!(follow.prev_command, "vim a");
    assert_eq!(follow.commands.limit, 5);
    assert_eq!(like_pattern("git"), "git%");
}

#[test]
fn numbers_are_read_back() {
    for n in [0, 1, 1_712_460_000_000, i64::MAX as u64, i64::MAX as u64 + 1, u64::MAX] {
        assert_eq!(to_sql_integer(n), n as i64);
        assert_eq!(from_sql_integer(to_sql_integer(n)), n);
    }
}

#[test]
fn only_successes_are_counted() {
    let row = journal_row(&entry(Some(1)));
    assert_eq!(row.duration_ms, Some(-1));
    assert!(stat_changes(&row, None).is_empty());
    let changes = stat_changes(&row, Some("vim a"));
    assert!(matches!(
        &changes[..],
        [StatChange::Transition { prev, next }] if prev == "vim a" && next == "make test"
    ));
    for exit_code in [None, Some(0)] {
        let row = journal_row(&entry(exit_code));
        let changes = stat_changes(&row, Some("vim a"));
        assert_eq!(changes.len(), 3);
        assert!(matches!(
            &changes[1],
            StatChange::Command { command_line, timestamp: 100 } if command_line == "make test"
        ));
        assert!(matches!(
            &changes[2],
            StatChange::CwdCommand { cwd, timestamp: 100, .. } if cwd == "/project"
        ));
    }
}

#[test]
fn empty_statistics_are_filled() {
    assert_eq!(
        backfill_plan(0, 3, 0),
        Backfill {
            commands: true,
            cwd_commands: false,
            transitions: true,
        }
    );
}

#[test]
fn frequencies_are_asked_for_together() {
    assert_eq!(frequencies_sql(0), None);
    let sql = frequencies_sql(3).unwrap();
    assert!(sql.contains("IN (?, ?, ?)"));
    assert!(frequencies_sql(1).unwrap().contains("IN (?)"));
}

#[test]
fn limits_are_written_as_signed_numbers() {
    assert_eq!(PrefixQuery::new("a", 20).limit, 20);
    assert_eq!(PrefixQuery::new("a", usize::MAX).limit, usize::MAX as i64);
}
