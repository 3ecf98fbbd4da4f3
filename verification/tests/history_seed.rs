use shellsuggest::config::{Config, HistoryConfig};
use shellsuggest::db::models::SeededCommandStat;
use shellsuggest::history_seed::{
    collect_seeded_stats, parse_history_line, prime_store_from_histfile, ParsedHistoryLine,
};

fn lines(text: &str) -> Vec<String> {
    text.lines().map(String::from).collect()
}

fn find<'a>(stats: &'a [SeededCommandStat], command: &str) -> &'a SeededCommandStat {
    stats
        .iter()
        .find(|stat| stat.command_line == command)
        .unwrap()
}

#[test]
fn test_parse_extended_history_line() {
    let parsed = parse_history_line(": 1712460000:3;git status").unwrap();
    assert_eq!(
        parsed,
        ParsedHistoryLine {
            command_line: "git status".into(),
            timestamp_ms: Some(1_712_460_000_000),
        }
    );
}

#[test]
fn test_parse_plain_history_line() {
    let parsed = parse_history_line("cargo test").unwrap();
    assert_eq!(
        parsed,
        ParsedHistoryLine {
            command_line: "cargo test".into(),
            timestamp_ms: None,
        }
    );
}

#[test]
fn test_collect_seeded_stats_aggregates_recent_entries() {
    let history = lines(
        "\
: 1712460000:0;git status
cargo test
: 1712460300:0;git status
cargo test
",
    );

    let (stats, parsed_entries) = collect_seeded_stats(&history, 10, 1_712_470_000_000);
    assert_eq!(parsed_entries, 4);
    assert_eq!(stats.len(), 2);

    let git = find(&stats, "git status");
    assert_eq!(git.sample_count, 2);
    assert_eq!(git.latest_timestamp, 1_712_460_300_000);

    let cargo = find(&stats, "cargo test");
    assert_eq!(cargo.sample_count, 2);
    assert!(cargo.latest_timestamp > 0);
    assert_eq!(cargo.latest_timestamp, 1_712_470_000_000);
    assert_eq!(stats[0].command_line, "cargo test");
}

#[test]
fn test_collect_seeded_stats_respects_max_entries() {
    let history = lines(
        "\
: 1712460000:0;echo dropped
: 1712460100:0;echo kept-one
: 1712460200:0;echo kept-two
",
    );

    let (stats, parsed_entries) = collect_seeded_stats(&history, 2, 0);
    assert_eq!(parsed_entries, 2);
    assert_eq!(stats.len(), 2);
    assert!(stats.iter().all(|stat| stat.command_line != "echo dropped"));
    assert!(stats
        .iter()
        .any(|stat| stat.command_line == "echo kept-one"));
    assert!(stats
        .iter()
        .any(|stat| stat.command_line == "echo kept-two"));
}

#[test]
fn test_prime_store_clears_seeded_stats_when_disabled() {
    let config = Config {
        history: HistoryConfig {
            seed_from_histfile: false,
            histfile_path: String::new(),
            seed_max_entries: 100,
        },
        ..Config::default()
    };
    let path = config.history_seed_path(Some("/h/hist"), Some("/h"));
    assert_eq!(path, None);
    let max_entries = config.history.seed_max_entries;
    let plan = prime_store_from_histfile(path.as_deref(), None, max_entries, 0);
    assert!(plan.summary.source_path.is_none());
    assert_eq!(plan.stats.len(), 0);
}

#[test]
fn seeding_reports_what_it_took() {
    let history = lines("ls\nls\npwd\n");
    let plan = prime_store_from_histfile(Some("/h/.zsh_history"), Some(&history), 100, 9_000);
    assert_eq!(plan.summary.source_path.as_deref(), Some("/h/.zsh_history"));
    assert_eq!(plan.summary.parsed_entries, 3);
    assert_eq!(plan.summary.imported_commands, 2);
    let missing = prime_store_from_histfile(Some("/h/.zsh_history"), None, 100, 9_000);
    assert_eq!(missing.summary.source_path.as_deref(), Some("/h/.zsh_history"));
    assert_eq!(missing.summary.parsed_entries, 0);
    assert!(missing.stats.is_empty());
}

#[test]
fn lines_without_a_time_are_a_second_apart() {
    let history = lines("a\nb\nc\n");
    let (stats, _) = collect_seeded_stats(&history, 100, 1_500);
    assert_eq!(find(&stats, "c").latest_timestamp, 1_500);
    assert_eq!(find(&stats, "b").latest_timestamp, 500);
    assert_eq!(find(&stats, "a").latest_timestamp, 0);
    let order: Vec<&str> = stats.iter().map(|s| s.command_line.as_str()).collect();
    assert_eq!(order, vec!["c", "b", "a"]);
}

#[test]
fn counts_add_up_to_the_commands_that_count() {
    let history = lines("x\ny\nx\n\nz\nx\n   \ny\n");
    let (stats, total) = collect_seeded_stats(&history, 100, 99_000);
    assert_eq!(total, 6);
    let sum: u64 = stats.iter().map(|s| s.sample_count).sum();
    assert_eq!(sum, 6);
    assert!(stats
        .windows(2)
        .all(|pair| pair[0].latest_timestamp >= pair[1].latest_timestamp));
}

#[test]
fn odd_lines_are_taken_as_they_are() {
    let plain = |line: &str| ParsedHistoryLine {
        command_line: line.into(),
        timestamp_ms: None,
    };
    assert_eq!(parse_history_line("  "), None);
    assert_eq!(parse_history_line(": x:0;ls").unwrap(), plain(": x:0;ls"));
    assert_eq!(parse_history_line(": 12:0;  ").unwrap(), plain(": 12:0;  "));
    assert_eq!(parse_history_line(": 12:0").unwrap(), plain(": 12:0"));
    assert_eq!(parse_history_line(" ls ").unwrap(), plain(" ls "));
    let huge = parse_history_line(": 18446744073709551615:0;ls").unwrap();
    assert_eq!(huge.timestamp_ms, Some(u64::MAX));
    let beyond = ": 18446744073709551616:0;ls";
    assert_eq!(parse_history_line(beyond).unwrap(), plain(beyond));
    let signed = parse_history_line(": +5 :0; ls; pwd ").unwrap();
    assert_eq!(signed.timestamp_ms, Some(5_000));
    assert_eq!(signed.command_line, "ls; pwd");
}
